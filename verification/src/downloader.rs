//! The download and the repair of a site: which captures become which files, and in which order the
//! work is done.
use crate::assets;
use crate::captures;
use crate::cdx;
use crate::download_refs;
use crate::html;
use crate::link_validation;
use crate::maps::{TextMap, TextSet};
use crate::noise;
use crate::numbers;
use crate::order;
use crate::path;
use crate::pathmap;
use crate::retry;
use crate::rewrite;
use crate::text;
use crate::urls;
use assets::FailureStreak;
use captures::RecordLookup;
use cdx::{CdxRecord, MatchType, SnapshotStrategy};
use path::LocalPath;
use pathmap::SiteMapper;
use rewrite::RewriteContext;
use urls::UrlError;
use vstd::prelude::*;

pub use crate::snapshots::snapshot_url;

verus! {

/// Whether a run is to stop. A flag cannot be copied: all who ask share the one that is set.
#[derive(Debug)]
pub struct CancellationFlag {
    cancelled: bool,
}

impl CancellationFlag {
    /// Whether the run is to stop.
    pub closed spec fn is_set(self) -> bool {
        self.cancelled
    }

    /// A run that goes on.
    pub fn new() -> (r: CancellationFlag)
        ensures
            !r.is_set(),
    {
        CancellationFlag { cancelled: false }
    }

    /// Stops the run.
    pub fn cancel(&mut self)
        ensures
            final(self).is_set(),
    {
        self.cancelled = true;
    }

    /// Whether the run is to stop.
    pub fn is_cancelled(&self) -> (r: bool)
        ensures
            r == self.is_set(),
    {
        self.cancelled
    }
}

impl Default for CancellationFlag {
    /// A run that goes on.
    fn default() -> (r: CancellationFlag)
        ensures
            !r.is_set(),
    {
        CancellationFlag::new()
    }
}

/// How a site is downloaded.
#[derive(Debug, Clone)]
pub struct DownloadOptions {
    pub output_dir: LocalPath,
    /// Whether files that are there are kept.
    pub no_clobber: bool,
    /// Whether files that hold an error page are replaced all the same.
    pub recover_existing: bool,
    pub rewrite_links: bool,
    /// How large linked files may be; none where they are not downloaded.
    pub extra_download_max_bytes: Option<u64>,
    pub validate_links: bool,
}

/// How a saved site is repaired.
#[derive(Debug, Clone)]
pub struct RepairOptions {
    pub output_dir: LocalPath,
    pub archive_root: String,
    pub match_type: MatchType,
    pub from: Option<String>,
    pub to: Option<String>,
    pub limit: Option<usize>,
    pub strategy: SnapshotStrategy,
    /// How large recovered files may be; none where none are recovered.
    pub extra_download_max_bytes: Option<u64>,
    pub validate_links: bool,
}

/// What a download has come to.
#[derive(Debug, Clone)]
pub struct DownloadReport {
    pub discovered: usize,
    pub downloaded: usize,
    pub skipped: usize,
    pub cancelled: usize,
    pub failed: usize,
    pub unavailable_snapshots: usize,
    /// How many error pages were kept for want of a better capture.
    pub retained_unusable: usize,
    pub aliases_created: usize,
    pub extra_downloads: usize,
    pub linked_files_unavailable: usize,
    pub linked_files_deferred: usize,
    pub recovered_static_assets: usize,
    pub static_asset_aliases_created: usize,
    pub unavailable_static_assets: usize,
    pub deferred_static_assets: usize,
    pub download_links_removed: usize,
    pub local_hrefs_removed: usize,
    pub local_resources_removed: usize,
    pub local_links_checked: usize,
    pub missing_local_links: usize,
    /// How many different targets the missing links have.
    pub unique_missing_targets: usize,
    /// How many saved pages hold nothing but an error.
    pub unusable_pages: usize,
    pub missing_image_sources: usize,
    pub output_dir: LocalPath,
}

/// What a repair has come to.
#[derive(Debug, Clone)]
pub struct RepairReport {
    pub aliases_created: usize,
    pub recovered_static_assets: usize,
    pub static_asset_aliases_created: usize,
    pub unavailable_static_assets: usize,
    pub deferred_static_assets: usize,
    pub download_links_removed: usize,
    pub local_hrefs_removed: usize,
    pub local_resources_removed: usize,
    pub local_links_checked: usize,
    pub missing_local_links: usize,
    /// How many different targets the missing links have.
    pub unique_missing_targets: usize,
    /// How many saved pages hold nothing but an error.
    pub unusable_pages: usize,
    pub missing_image_sources: usize,
    pub output_dir: LocalPath,
}

/// What became of one file of a download.
#[derive(Debug, Clone, Copy, PartialEq, Eq, Structural)]
pub enum JobOutcome {
    Downloaded,
    /// An error page was written, for want of a better capture.
    RetainedUnusable,
    Skipped,
    Cancelled,
    /// The capture cannot be had any more.
    Unavailable,
    Failed,
}

/// One more where a condition holds, as far as it fits.
pub open spec fn counted_if(n: usize, holds: bool) -> nat {
    numbers::capped((n + (if holds {
        1int
    } else {
        0
    })) as nat)
}

/// One more where a condition holds, as far as it fits.
fn count_if(n: usize, holds: bool) -> (r: usize)
    ensures
        r == counted_if(n, holds),
{
    if holds {
        numbers::add_capped(n, 1)
    } else {
        n
    }
}

impl DownloadReport {
    /// Whether nothing is counted but the files that were found and the duplicates among them.
    pub open spec fn is_blank(self, discovered: usize, duplicates: usize) -> bool {
        &&& self.discovered == discovered
        &&& self.skipped == duplicates
        &&& self.downloaded == 0
        &&& self.cancelled == 0
        &&& self.failed == 0
        &&& self.unavailable_snapshots == 0
        &&& self.retained_unusable == 0
        &&& self.aliases_created == 0
        &&& self.extra_downloads == 0
        &&& self.linked_files_unavailable == 0
        &&& self.linked_files_deferred == 0
        &&& self.recovered_static_assets == 0
        &&& self.static_asset_aliases_created == 0
        &&& self.unavailable_static_assets == 0
        &&& self.deferred_static_assets == 0
        &&& self.download_links_removed == 0
        &&& self.local_hrefs_removed == 0
        &&& self.local_resources_removed == 0
        &&& self.local_links_checked == 0
        &&& self.missing_local_links == 0
        &&& self.unique_missing_targets == 0
        &&& self.unusable_pages == 0
        &&& self.missing_image_sources == 0
    }

    /// Nothing done yet but the planning.
    pub fn new(discovered: usize, duplicates: usize, output_dir: LocalPath) -> (r: DownloadReport)
        ensures
            r.is_blank(discovered, duplicates),
            r.output_dir@ == output_dir@,
    {
        DownloadReport {
            discovered,
            downloaded: 0,
            skipped: duplicates,
            cancelled: 0,
            failed: 0,
            unavailable_snapshots: 0,
            retained_unusable: 0,
            aliases_created: 0,
            extra_downloads: 0,
            linked_files_unavailable: 0,
            linked_files_deferred: 0,
            recovered_static_assets: 0,
            static_asset_aliases_created: 0,
            unavailable_static_assets: 0,
            deferred_static_assets: 0,
            download_links_removed: 0,
            local_hrefs_removed: 0,
            local_resources_removed: 0,
            local_links_checked: 0,
            missing_local_links: 0,
            unique_missing_targets: 0,
            unusable_pages: 0,
            missing_image_sources: 0,
            output_dir,
        }
    }

    /// The report with what became of one more file.
    pub open spec fn counted(self, outcome: JobOutcome, linked: bool) -> DownloadReport {
        let written = outcome == JobOutcome::Downloaded || outcome == JobOutcome::RetainedUnusable;
        let gone = outcome == JobOutcome::Unavailable;
        DownloadReport {
            downloaded: counted_if(self.downloaded, written) as usize,
            extra_downloads: counted_if(self.extra_downloads, linked && written) as usize,
            retained_unusable: counted_if(
                self.retained_unusable,
                outcome == JobOutcome::RetainedUnusable,
            ) as usize,
            skipped: counted_if(self.skipped, outcome == JobOutcome::Skipped) as usize,
            cancelled: counted_if(self.cancelled, outcome == JobOutcome::Cancelled) as usize,
            unavailable_snapshots: counted_if(self.unavailable_snapshots, gone) as usize,
            linked_files_unavailable: counted_if(
                self.linked_files_unavailable,
                linked && gone,
            ) as usize,
            failed: counted_if(self.failed, outcome == JobOutcome::Failed) as usize,
            ..self
        }
    }

    /// Counts what became of one file; `linked` tells that it is one of those that pages link to.
    pub fn count(&mut self, outcome: JobOutcome, linked: bool)
        ensures
            *final(self) == old(self).counted(outcome, linked),
            final(self).downloaded == counted_if(
                old(self).downloaded,
                outcome == JobOutcome::Downloaded || outcome == JobOutcome::RetainedUnusable,
            ),
            final(self).extra_downloads == counted_if(
                old(self).extra_downloads,
                linked && (outcome == JobOutcome::Downloaded || outcome
                    == JobOutcome::RetainedUnusable),
            ),
            final(self).retained_unusable == counted_if(
                old(self).retained_unusable,
                outcome == JobOutcome::RetainedUnusable,
            ),
            final(self).skipped == counted_if(old(self).skipped, outcome == JobOutcome::Skipped),
            final(self).cancelled == counted_if(
                old(self).cancelled,
                outcome == JobOutcome::Cancelled,
            ),
            final(self).unavailable_snapshots == counted_if(
                old(self).unavailable_snapshots,
                outcome == JobOutcome::Unavailable,
            ),
            final(self).linked_files_unavailable == counted_if(
                old(self).linked_files_unavailable,
                linked && outcome == JobOutcome::Unavailable,
            ),
            final(self).failed == counted_if(old(self).failed, outcome == JobOutcome::Failed),
            *final(self) == (DownloadReport {
                downloaded: final(self).downloaded,
                extra_downloads: final(self).extra_downloads,
                retained_unusable: final(self).retained_unusable,
                skipped: final(self).skipped,
                cancelled: final(self).cancelled,
                unavailable_snapshots: final(self).unavailable_snapshots,
                linked_files_unavailable: final(self).linked_files_unavailable,
                failed: final(self).failed,
                ..*old(self)
            }),
    {
        let written = outcome == JobOutcome::Downloaded || outcome == JobOutcome::RetainedUnusable;
        let gone = outcome == JobOutcome::Unavailable;
        self.downloaded = count_if(self.downloaded, written);
        self.extra_downloads = count_if(self.extra_downloads, linked && written);
        self.retained_unusable = count_if(
            self.retained_unusable,
            outcome == JobOutcome::RetainedUnusable,
        );
        self.skipped = count_if(self.skipped, outcome == JobOutcome::Skipped);
        self.cancelled = count_if(self.cancelled, outcome == JobOutcome::Cancelled);
        self.unavailable_snapshots = count_if(self.unavailable_snapshots, gone);
        self.linked_files_unavailable = count_if(self.linked_files_unavailable, linked && gone);
        self.failed = count_if(self.failed, outcome == JobOutcome::Failed);
    }
}

impl Default for DownloadReport {
    /// Nothing done yet, in the current directory.
    fn default() -> (r: DownloadReport)
        ensures
            r.is_blank(0, 0),
            r.output_dir@ == (path::PathView { absolute: false, parts: Seq::empty() }),
    {
        DownloadReport::new(0, 0, LocalPath::empty())
    }
}

impl RepairReport {
    /// Whether nothing is counted.
    pub open spec fn is_blank(self) -> bool {
        &&& self.aliases_created == 0
        &&& self.recovered_static_assets == 0
        &&& self.static_asset_aliases_created == 0
        &&& self.unavailable_static_assets == 0
        &&& self.deferred_static_assets == 0
        &&& self.download_links_removed == 0
        &&& self.local_hrefs_removed == 0
        &&& self.local_resources_removed == 0
        &&& self.local_links_checked == 0
        &&& self.missing_local_links == 0
        &&& self.unique_missing_targets == 0
        &&& self.unusable_pages == 0
        &&& self.missing_image_sources == 0
    }

    /// Nothing done yet.
    pub fn new(output_dir: LocalPath) -> (r: RepairReport)
        ensures
            r.is_blank(),
            r.output_dir@ == output_dir@,
    {
        RepairReport {
            aliases_created: 0,
            recovered_static_assets: 0,
            static_asset_aliases_created: 0,
            unavailable_static_assets: 0,
            deferred_static_assets: 0,
            download_links_removed: 0,
            local_hrefs_removed: 0,
            local_resources_removed: 0,
            local_links_checked: 0,
            missing_local_links: 0,
            unique_missing_targets: 0,
            unusable_pages: 0,
            missing_image_sources: 0,
            output_dir,
        }
    }
}

impl Default for RepairReport {
    /// Nothing done yet, in the current directory.
    fn default() -> (r: RepairReport)
        ensures
            r.is_blank(),
            r.output_dir@ == (path::PathView { absolute: false, parts: Seq::empty() }),
    {
        RepairReport::new(LocalPath::empty())
    }
}

/// The static files that are still missing after copies were made of others.
pub fn still_unavailable(unavailable: usize, aliases: usize) -> (r: usize)
    ensures
        r == (if aliases <= unavailable {
            unavailable - aliases
        } else {
            0
        }),
{
    if aliases <= unavailable {
        unavailable - aliases
    } else {
        0
    }
}

/// The captures that are not noise.
pub open spec fn without_noise(records: Seq<cdx::RecordView>) -> Seq<cdx::RecordView>
    decreases records.len(),
{
    if records.len() == 0 {
        Seq::empty()
    } else if noise::noise_url(records.last().original, records.last().mimetype) {
        without_noise(records.drop_last())
    } else {
        without_noise(records.drop_last()).push(records.last())
    }
}

/// Leaves the captures out that are noise; tells how many there were.
pub fn filter_archive_noise(records: Vec<CdxRecord>) -> (r: (Vec<CdxRecord>, usize))
    ensures
        cdx::record_views(r.0@) == without_noise(cdx::record_views(records@)),
        r.1 == records@.len() - r.0@.len(),
{
    let ghost all = cdx::record_views(records@);
    let n: usize = records.len();
    let mut kept: Vec<CdxRecord> = Vec::new();
    let mut i: usize = 0;
    proof {
        assert(cdx::record_views(kept@) == without_noise(all.take(0)));
    }
    while i < n
        invariant
            i <= n,
            n == records@.len(),
            all == cdx::record_views(records@),
            kept@.len() <= i,
            cdx::record_views(kept@) == without_noise(all.take(i as int)),
        decreases n - i,
    {
        let ghost before = cdx::record_views(kept@);
        proof {
            assert(all.take(i + 1).drop_last() == all.take(i as int));
            assert(all.take(i + 1).last() == records@[i as int]@);
        }
        if !noise::is_archive_noise_record(&records[i]) {
            kept.push(records[i].duplicate());
            proof {
                assert(cdx::record_views(kept@) == before.push(records@[i as int]@));
            }
        }
        i += 1;
    }
    proof {
        assert(all.take(all.len() as int) == all);
    }
    let left_out: usize = n - kept.len();
    (kept, left_out)
}

/// What is left after the noise is filtered out holds no noise, only captures that were there
/// before, and every one of those that are not noise.
pub proof fn law_filtering_keeps_what_is_not_noise(
    records: Seq<cdx::RecordView>,
    record: cdx::RecordView,
)
    ensures
        without_noise(records).contains(record) <==> records.contains(record) && !noise::noise_url(
            record.original,
            record.mimetype,
        ),
    decreases records.len(),
{
    if records.len() > 0 {
        let front = records.drop_last();
        let last = records.last();
        let kept = without_noise(records);
        law_filtering_keeps_what_is_not_noise(front, record);
        if front.contains(record) {
            let k = choose|k: int| 0 <= k < front.len() && front[k] == record;
            assert(records[k] == record);
        }
        if records.contains(record) && record != last {
            let k = choose|k: int| 0 <= k < records.len() && records[k] == record;
            assert(front[k] == record);
        }
        assert(records[records.len() - 1] == last);
        if without_noise(front).contains(record) {
            let k = choose|k: int|
                0 <= k < without_noise(front).len() && without_noise(front)[k] == record;
            assert(kept[k] == record);
        }
        if !noise::noise_url(last.original, last.mimetype) {
            assert(kept[kept.len() - 1] == last);
        }
        if kept.contains(record) && record != last {
            let k = choose|k: int| 0 <= k < kept.len() && kept[k] == record;
            assert(without_noise(front)[k] == record);
        }
    }
}

/// The addresses for which a repair asks the index.
pub open spec fn recovery_targets(mapper: pathmap::MapperView, match_type: MatchType) -> Seq<
    Seq<char>,
> {
    match match_type {
        MatchType::Host => mapper.primary_hosts,
        _ => seq![mapper.root_host],
    }
}

/// The addresses for which a repair asks the index.
pub fn recovery_cdx_targets(mapper: &SiteMapper, match_type: MatchType) -> (r: Vec<String>)
    ensures
        text::views(r@) == recovery_targets(mapper@, match_type),
        text::views(r@) == (if match_type == MatchType::Host {
            mapper@.primary_hosts
        } else {
            seq![mapper@.root_host]
        }),
{
    if match_type == MatchType::Host {
        text::clone_strings(mapper.primary_hosts())
    } else {
        let mut targets: Vec<String> = Vec::new();
        targets.push(mapper.cdx_target().to_owned());
        proof {
            assert(text::views(targets@) == seq![mapper@.root_host]);
        }
        targets
    }
}

/// The captures by the texts of their local paths, the first of each path; only those of static
/// files within a limit where `assets_within` gives one. Where the URL of a capture that counts is
/// malformed, the first such error.
pub open spec fn by_path(
    mapper: pathmap::MapperView,
    records: Seq<cdx::RecordView>,
    assets_within: Option<u64>,
) -> Result<Map<Seq<char>, cdx::RecordView>, UrlError>
    decreases records.len(),
{
    if records.len() == 0 {
        Ok(Map::empty())
    } else {
        match by_path(mapper, records.drop_last(), assets_within) {
            Ok(index) => {
                let record = records.last();
                if assets_within matches Some(max) && !captures::fits(record, max) {
                    Ok(index)
                } else {
                    match urls::url_parse(record.original) {
                        Ok(url) => {
                            let p = pathmap::local_path(mapper, url, record.mimetype);
                            if (assets_within is Some && !assets::static_asset(p))
                                || index.contains_key(p.text()) {
                                Ok(index)
                            } else {
                                Ok(index.insert(p.text(), record))
                            }
                        },
                        Err(e) => Err(e),
                    }
                }
            },
            Err(e) => Err(e),
        }
    }
}

/// The mathematical form of an index by path, or of the error.
pub open spec fn index_view(index: Result<TextMap<CdxRecord>, UrlError>) -> Result<
    Map<Seq<char>, cdx::RecordView>,
    UrlError,
> {
    match index {
        Ok(index) => Ok(index@),
        Err(e) => Err(e),
    }
}

/// The captures by the texts of their local paths.
fn index_by_path(mapper: &SiteMapper, records: &Vec<CdxRecord>, assets_within: Option<u64>) -> (r:
    Result<TextMap<CdxRecord>, UrlError>)
    ensures
        index_view(r) == by_path(mapper@, cdx::record_views(records@), assets_within),
{
    let ghost all = cdx::record_views(records@);
    let mut index: TextMap<CdxRecord> = TextMap::new();
    let mut i: usize = 0;
    proof {
        assert(all.take(0).len() == 0);
    }
    while i < records.len()
        invariant
            i <= records@.len(),
            all == cdx::record_views(records@),
            by_path(mapper@, all.take(i as int), assets_within) == Ok::<_, UrlError>(index@),
        decreases records@.len() - i,
    {
        let record = &records[i];
        proof {
            assert(all.take(i + 1).drop_last() == all.take(i as int));
            assert(all.take(i + 1).last() == record@);
        }
        let within = match assets_within {
            Some(max) => captures::is_within(record, max),
            None => true,
        };
        if within {
            match mapper.local_path_for_url(record.original.as_str(), record.mimetype.as_str()) {
                Ok(p) => {
                    let key = p.to_text();
                    if (assets_within.is_none() || assets::is_recoverable_static_asset(&p))
                        && !index.contains(key.as_str()) {
                        index.insert(key.as_str(), record.duplicate());
                    }
                },
                Err(e) => {
                    proof {
                        lemma_by_path_fails(mapper@, all, assets_within, i + 1);
                        assert(all.take(all.len() as int) == all);
                    }
                    return Err(e);
                },
            }
        }
        i += 1;
    }
    proof {
        assert(all.take(all.len() as int) == all);
    }
    Ok(index)
}

/// The first malformed URL decides over the whole index.
proof fn lemma_by_path_fails(
    mapper: pathmap::MapperView,
    records: Seq<cdx::RecordView>,
    assets_within: Option<u64>,
    n: int,
)
    requires
        0 <= n <= records.len(),
        by_path(mapper, records.take(n), assets_within) is Err,
    ensures
        by_path(mapper, records.take(records.len() as int), assets_within) == by_path(
            mapper,
            records.take(n),
            assets_within,
        ),
    decreases records.len() - n,
{
    if n < records.len() {
        assert(records.take(n + 1).drop_last() == records.take(n));
        lemma_by_path_fails(mapper, records, assets_within, n + 1);
    }
}

/// The captures of static files within a limit, by the texts of their local paths.
pub fn recoverable_static_records_by_path(
    mapper: &SiteMapper,
    records: &Vec<CdxRecord>,
    max_bytes: u64,
) -> (r: Result<TextMap<CdxRecord>, UrlError>)
    ensures
        index_view(r) == by_path(mapper@, cdx::record_views(records@), Some(max_bytes)),
{
    index_by_path(mapper, records, Some(max_bytes))
}

/// The captures by the texts of their local paths, the first of each path.
pub fn records_by_local_path(mapper: &SiteMapper, records: &Vec<CdxRecord>) -> (r: Result<
    TextMap<CdxRecord>,
    UrlError,
>)
    ensures
        index_view(r) == by_path(mapper@, cdx::record_views(records@), None),
{
    index_by_path(mapper, records, None)
}

/// A capture and the file that it becomes.
pub struct DownloadJob {
    pub record: CdxRecord,
    pub local_path: LocalPath,
}

impl View for DownloadJob {
    type V = (cdx::RecordView, path::PathView);

    open spec fn view(&self) -> (cdx::RecordView, path::PathView) {
        (self.record@, self.local_path@)
    }
}

/// The captures that become files: the first of each path.
pub struct JobPlan {
    pub jobs: Vec<DownloadJob>,
    /// The texts of the paths.
    pub seen_paths: TextSet,
    /// How many captures would have become a file that another one becomes.
    pub duplicates: usize,
}

/// The mathematical form of a plan.
#[verifier::ext_equal]
pub struct PlanView {
    pub jobs: Seq<(cdx::RecordView, path::PathView)>,
    pub seen: Set<Seq<char>>,
    pub duplicates: nat,
}

impl View for JobPlan {
    type V = PlanView;

    open spec fn view(&self) -> PlanView {
        PlanView {
            jobs: order::keys(self.jobs@),
            seen: self.seen_paths@,
            duplicates: self.duplicates as nat,
        }
    }
}

/// The plan for captures with known paths.
pub open spec fn planned(
    known: Map<Seq<char>, path::PathView>,
    records: Seq<cdx::RecordView>,
) -> PlanView
    decreases records.len(),
{
    if records.len() == 0 {
        PlanView { jobs: Seq::empty(), seen: Set::empty(), duplicates: 0 }
    } else {
        let plan = planned(known, records.drop_last());
        let key = pathmap::lookup_key(records.last().original);
        if !known.contains_key(key) {
            plan
        } else if plan.seen.contains(known[key].text()) {
            PlanView { duplicates: plan.duplicates + 1, ..plan }
        } else {
            PlanView {
                jobs: plan.jobs.push((records.last(), known[key])),
                seen: plan.seen.insert(known[key].text()),
                ..plan
            }
        }
    }
}

/// Plans which captures become which files.
pub fn plan_jobs(known_paths: &TextMap<LocalPath>, records: &Vec<CdxRecord>) -> (r: JobPlan)
    ensures
        r@ == planned(known_paths@, cdx::record_views(records@)),
{
    let ghost all = cdx::record_views(records@);
    let n: usize = records.len();
    let mut plan = JobPlan { jobs: Vec::new(), seen_paths: TextSet::new(), duplicates: 0 };
    let mut i: usize = 0;
    proof {
        assert(all.take(0).len() == 0);
        assert(order::keys(plan.jobs@) == Seq::<(cdx::RecordView, path::PathView)>::empty());
    }
    while i < n
        invariant
            i <= n,
            n == records@.len(),
            all == cdx::record_views(records@),
            plan.duplicates <= i,
            plan@ == planned(known_paths@, all.take(i as int)),
        decreases n - i,
    {
        let record = &records[i];
        let ghost before = order::keys(plan.jobs@);
        proof {
            assert(all.take(i + 1).drop_last() == all.take(i as int));
            assert(all.take(i + 1).last() == record@);
        }
        let key = pathmap::normalize_lookup_url(record.original.as_str());
        if let Some(p) = known_paths.get(key.as_str()) {
            let place = p.to_text();
            if plan.seen_paths.contains(place.as_str()) {
                plan.duplicates = plan.duplicates + 1;
            } else {
                plan.seen_paths.insert(place.as_str());
                let job = DownloadJob { record: record.duplicate(), local_path: p.duplicate() };
                plan.jobs.push(job);
                proof {
                    assert(order::keys(plan.jobs@) == before.push(job@));
                }
            }
        }
        i += 1;
    }
    proof {
        assert(all.take(all.len() as int) == all);
    }
    plan
}

/// Each capture whose address is known becomes a file or counts as a duplicate.
pub proof fn law_captures_become_files_or_duplicates(
    known: Map<Seq<char>, path::PathView>,
    records: Seq<cdx::RecordView>,
)
    requires
        forall|i: int|
            0 <= i < records.len() ==> known.contains_key(
                pathmap::lookup_key((#[trigger] records[i]).original),
            ),
    ensures
        planned(known, records).jobs.len() + planned(known, records).duplicates == records.len(),
    decreases records.len(),
{
    if records.len() > 0 {
        let front = records.drop_last();
        assert forall|i: int| 0 <= i < front.len() implies known.contains_key(
            pathmap::lookup_key((#[trigger] front[i]).original),
        ) by {
            assert(front[i] == records[i]);
        }
        law_captures_become_files_or_duplicates(known, front);
        assert(known.contains_key(pathmap::lookup_key(records[records.len() - 1].original)));
    }
}

/// A download writes or counts as a duplicate each capture that is left after filtering: the paths
/// that its mapper gives to the captures hold the address of each.
pub proof fn law_mapped_captures_become_files_or_duplicates(
    mapper: pathmap::MapperView,
    records: Seq<cdx::RecordView>,
)
    requires
        pathmap::mapped_paths(mapper, records) is Ok,
    ensures
        ({
            let plan = planned(pathmap::mapped_paths(mapper, records)->Ok_0, records);
            plan.jobs.len() + plan.duplicates == records.len()
        }),
{
    let known = pathmap::mapped_paths(mapper, records)->Ok_0;
    assert forall|i: int| 0 <= i < records.len() implies known.contains_key(
        pathmap::lookup_key((#[trigger] records[i]).original),
    ) by {
        lemma_mapped_captures(mapper, records, i);
    }
    law_captures_become_files_or_duplicates(known, records);
}

/// The address of each capture has a path.
proof fn lemma_mapped_captures(
    mapper: pathmap::MapperView,
    records: Seq<cdx::RecordView>,
    i: int,
)
    requires
        pathmap::mapped_paths(mapper, records) is Ok,
        0 <= i < records.len(),
    ensures
        pathmap::mapped_paths(mapper, records)->Ok_0.contains_key(
            pathmap::lookup_key(records[i].original),
        ),
    decreases records.len(),
{
    if i < records.len() - 1 {
        lemma_mapped_captures(mapper, records.drop_last(), i);
        assert(records.drop_last()[i] == records[i]);
    }
}

/// No two files of a plan have the same path.
pub proof fn law_planned_paths_are_distinct(
    known: Map<Seq<char>, path::PathView>,
    records: Seq<cdx::RecordView>,
)
    ensures
        forall|i: int, j: int|
            0 <= i < j < planned(known, records).jobs.len() ==> (#[trigger] planned(
                known,
                records,
            ).jobs[i]).1.text() != (#[trigger] planned(known, records).jobs[j]).1.text(),
        forall|i: int|
            0 <= i < planned(known, records).jobs.len() ==> planned(known, records).seen.contains(
                (#[trigger] planned(known, records).jobs[i]).1.text(),
            ),
    decreases records.len(),
{
    if records.len() > 0 {
        law_planned_paths_are_distinct(known, records.drop_last());
        let before = planned(known, records.drop_last());
        let after = planned(known, records);
        assert forall|i: int| 0 <= i < after.jobs.len() implies after.seen.contains(
            (#[trigger] after.jobs[i]).1.text(),
        ) by {
            if i < before.jobs.len() {
                assert(after.jobs[i] == before.jobs[i]);
            }
        }
        assert forall|i: int, j: int| 0 <= i < j < after.jobs.len() implies (
        #[trigger] after.jobs[i]).1.text() != (#[trigger] after.jobs[j]).1.text() by {
            assert(after.jobs[i] == before.jobs[i]);
            if j < before.jobs.len() {
                assert(after.jobs[j] == before.jobs[j]);
            }
        }
    }
}

/// The captures that several queries have found, each once.
pub struct RecoveryRecords {
    records: Vec<CdxRecord>,
    seen: TextSet,
    failed_targets: bool,
}

/// The mathematical form of the captures that several queries have found.
#[verifier::ext_equal]
pub struct RecoveryRecordsView {
    pub records: Seq<cdx::RecordView>,
    pub seen: Set<Seq<char>>,
    pub failed: bool,
}

impl View for RecoveryRecords {
    type V = RecoveryRecordsView;

    closed spec fn view(&self) -> RecoveryRecordsView {
        RecoveryRecordsView {
            records: cdx::record_views(self.records@),
            seen: self.seen@,
            failed: self.failed_targets,
        }
    }
}

impl RecoveryRecordsView {
    /// The captures with more of them: each of a time and lookup key once.
    pub open spec fn with(self, found: Seq<cdx::RecordView>) -> RecoveryRecordsView
        decreases found.len(),
    {
        if found.len() == 0 {
            self
        } else {
            let before = self.with(found.drop_last());
            let key = captures::capture_key(found.last());
            if before.seen.contains(key) {
                before
            } else {
                RecoveryRecordsView {
                    records: before.records.push(found.last()),
                    seen: before.seen.insert(key),
                    ..before
                }
            }
        }
    }
}

/// Every query for captures failed.
#[derive(Debug, Clone, Copy, PartialEq, Eq, Structural)]
pub struct NoRecoveryRecords;

impl RecoveryRecords {
    /// Nothing found yet.
    pub fn new() -> (r: RecoveryRecords)
        ensures
            r@ == (RecoveryRecordsView { records: Seq::empty(), seen: Set::empty(), failed: false }),
    {
        let r = RecoveryRecords {
            records: Vec::new(),
            seen: TextSet::new(),
            failed_targets: false,
        };
        proof {
            assert(cdx::record_views(r.records@) == Seq::<cdx::RecordView>::empty());
        }
        r
    }

    /// Takes the captures that a query has found, without noise.
    pub fn found(&mut self, records: Vec<CdxRecord>)
        ensures
            final(self)@ == old(self)@.with(without_noise(cdx::record_views(records@))),
    {
        let (kept, _) = filter_archive_noise(records);
        let ghost all = cdx::record_views(kept@);
        let ghost start = self@;
        let mut i: usize = 0;
        proof {
            assert(all.take(0).len() == 0);
        }
        while i < kept.len()
            invariant
                i <= kept@.len(),
                all == cdx::record_views(kept@),
                self@ == start.with(all.take(i as int)),
            decreases kept@.len() - i,
        {
            let ghost before = cdx::record_views(self.records@);
            let ghost seen_before = self.seen@;
            proof {
                assert(all.take(i + 1).drop_last() == all.take(i as int));
                assert(all.take(i + 1).last() == kept@[i as int]@);
            }
            if self.seen.insert(captures::capture_key_of(&kept[i]).as_str()) {
                self.records.push(kept[i].duplicate());
                proof {
                    assert(cdx::record_views(self.records@) == before.push(kept@[i as int]@));
                }
            } else {
                proof {
                    assert(self.seen@ =~= seen_before);
                }
            }
            i += 1;
        }
        proof {
            assert(all.take(all.len() as int) == all);
        }
    }

    /// Notes a query that failed.
    pub fn query_failed(&mut self)
        ensures
            final(self)@ == (RecoveryRecordsView { failed: true, ..old(self)@ }),
    {
        self.failed_targets = true;
    }

    /// The captures that were found; an error where there are none because a query failed.
    pub fn finish(self) -> (r: Result<Vec<CdxRecord>, NoRecoveryRecords>)
        ensures
            match r {
                Ok(records) => cdx::record_views(records@) == self@.records && !(
                self@.records.len() == 0 && self@.failed),
                Err(_) => self@.records.len() == 0 && self@.failed,
            },
    {
        proof {
            assert(self.records@.len() == cdx::record_views(self.records@).len());
        }
        if self.records.len() == 0 && self.failed_targets {
            Err(NoRecoveryRecords)
        } else {
            Ok(self.records)
        }
    }
}

/// What is done with a file of a download.
#[derive(Debug, Clone, Copy, PartialEq, Eq, Structural)]
pub enum FirstStep {
    Cancelled,
    /// The file is there and stays.
    Skip,
    Fetch,
}

/// What is done with a file of a download.
pub open spec fn step_for(
    cancelled: bool,
    no_clobber: bool,
    recover_existing: bool,
    filled: bool,
    unusable: bool,
) -> FirstStep {
    if cancelled {
        FirstStep::Cancelled
    } else if no_clobber && filled && !(recover_existing && unusable) {
        FirstStep::Skip
    } else {
        FirstStep::Fetch
    }
}

/// What is done with a file of a download: `filled` tells that there is a file that is not empty,
/// `unusable` that it holds an error page.
pub fn first_step(
    cancelled: bool,
    no_clobber: bool,
    recover_existing: bool,
    filled: bool,
    unusable: bool,
) -> (r: FirstStep)
    ensures
        r == step_for(cancelled, no_clobber, recover_existing, filled, unusable),
        r == FirstStep::Cancelled <==> cancelled,
        r == FirstStep::Skip <==> !cancelled && no_clobber && filled && !(recover_existing
            && unusable),
{
    if cancelled {
        FirstStep::Cancelled
    } else if no_clobber && filled && !(recover_existing && unusable) {
        FirstStep::Skip
    } else {
        FirstStep::Fetch
    }
}

/// Whether a capture may be written.
pub open spec fn is_writable(filled: bool, existing_unusable: bool, capture_unusable: bool) -> bool {
    capture_unusable && filled ==> existing_unusable
}

/// Whether a capture may be written: an error page never replaces a file that holds something else.
pub fn may_write(filled: bool, existing_unusable: bool, capture_unusable: bool) -> (r: bool)
    ensures
        r == is_writable(filled, existing_unusable, capture_unusable),
        r == !(capture_unusable && filled && !existing_unusable),
{
    !(capture_unusable && filled && !existing_unusable)
}

/// A document as it is written, and the URLs of the same site that it refers to.
pub struct PreparedDocument {
    pub content: String,
    pub references: Vec<String>,
}

/// Why a document cannot be prepared.
#[derive(Debug, Clone, Copy, PartialEq, Eq, Structural)]
pub enum PrepareError {
    /// Its own URL is malformed.
    InvalidOriginal,
    /// It cannot be read as HTML.
    Unreadable,
}

/// The document with its references rewritten, and the URLs of the same site that it refers to;
/// none where it cannot be read.
pub open spec fn prepared(
    context: rewrite::ContextView,
    mapper: pathmap::MapperView,
    content: Seq<char>,
    is_css: bool,
) -> Option<(Seq<char>, Seq<Seq<char>>)> {
    let changed = if is_css {
        Some(rewrite::rewritten_css(context, content))
    } else {
        rewrite::rewritten_html(context, content)
    };
    match (changed, download_refs::document_references(content, is_css)) {
        (Some(changed), Some(values)) => Some(
            (
                changed,
                order::sort_dedup_of(
                    download_refs::related_urls(context.original.href, mapper, values),
                ),
            ),
        ),
        _ => None,
    }
}

/// Rewrites the references of a captured document, and collects the URLs of the same site that it
/// refers to.
pub fn prepare_document(
    content: &str,
    record: &CdxRecord,
    local_path: &LocalPath,
    known_paths: &TextMap<LocalPath>,
    mapper: &SiteMapper,
) -> (r: Result<PreparedDocument, PrepareError>)
    ensures
        match urls::url_parse(record@.original) {
            Ok(url) => {
                let context = rewrite::ContextView {
                    original: url,
                    local: local_path@,
                    known: known_paths@,
                    mapper: Some(mapper@),
                };
                match prepared(
                    context,
                    mapper@,
                    content@,
                    pathmap::css_mimetype(record@.mimetype),
                ) {
                    Some((changed, references)) => r matches Ok(document) && document.content@
                        == changed && text::views(document.references@) == references,
                    None => r matches Err(e) && e == PrepareError::Unreadable,
                }
            },
            Err(_) => r matches Err(e) && e == PrepareError::InvalidOriginal,
        },
{
    let is_css = pathmap::is_css_mimetype(record.mimetype.as_str());
    let base = match urls::parse_url(record.original.as_str()) {
        Ok(url) => url,
        Err(_) => {
            return Err(PrepareError::InvalidOriginal);
        },
    };
    let context = match RewriteContext::new_with_mapper(
        record.original.as_str(),
        local_path.duplicate(),
        known_paths,
        mapper,
    ) {
        Ok(context) => context,
        Err(_) => {
            return Err(PrepareError::InvalidOriginal);
        },
    };
    let references = match download_refs::extract_related_references(
        content,
        &base,
        mapper,
        is_css,
    ) {
        Ok(references) => references,
        Err(_) => {
            return Err(PrepareError::Unreadable);
        },
    };
    if is_css {
        return Ok(
            PreparedDocument { content: rewrite::rewrite_css(content, &context), references },
        );
    }
    match rewrite::rewrite_html(content, &context) {
        Ok(page) => Ok(PreparedDocument { content: page, references }),
        Err(_) => Err(PrepareError::Unreadable),
    }
}

/// The files that pages link to, one lookup after the other, in rounds: the files of one round hold
/// the references of the next.
pub struct ExtraDownloads {
    references: Vec<String>,
    at: usize,
    asked: TextSet,
    pub known_paths: TextMap<LocalPath>,
    pub seen_paths: TextSet,
    pub jobs: Vec<DownloadJob>,
    pub unavailable: usize,
    pub deferred: usize,
    pub streak: FailureStreak,
}

/// The mathematical form of the files that pages link to.
#[verifier::ext_equal]
pub struct ExtraView {
    /// The references that were not dealt with.
    pub references: Seq<Seq<char>>,
    /// The references of this round and of those before it.
    pub asked: Set<Seq<char>>,
    pub known: Map<Seq<char>, path::PathView>,
    pub seen: Set<Seq<char>>,
    pub jobs: Seq<(cdx::RecordView, path::PathView)>,
    pub unavailable: usize,
    pub deferred: usize,
    pub failures: usize,
}

impl View for ExtraDownloads {
    type V = ExtraView;

    closed spec fn view(&self) -> ExtraView {
        ExtraView {
            references: text::views(self.references@).skip(self.at as int),
            asked: self.asked@,
            known: self.known_paths@,
            seen: self.seen_paths@,
            jobs: order::keys(self.jobs@),
            unavailable: self.unavailable,
            deferred: self.deferred,
            failures: self.streak.failures,
        }
    }
}

/// The references that were not asked for.
pub open spec fn unasked(asked: Set<Seq<char>>, references: Seq<Seq<char>>) -> Seq<Seq<char>>
    decreases references.len(),
{
    if references.len() == 0 {
        Seq::empty()
    } else if asked.contains(references.last()) {
        unasked(asked, references.drop_last())
    } else {
        unasked(asked, references.drop_last()).push(references.last())
    }
}

/// The references that were not asked for.
fn without_asked(asked: &TextSet, references: Vec<String>) -> (r: Vec<String>)
    ensures
        text::views(r@) == unasked(asked@, text::views(references@)),
{
    let ghost all = text::views(references@);
    let mut r: Vec<String> = Vec::new();
    let mut i: usize = 0;
    proof {
        assert(text::views(r@) == unasked(asked@, all.take(0)));
    }
    while i < references.len()
        invariant
            i <= references@.len(),
            all == text::views(references@),
            text::views(r@) == unasked(asked@, all.take(i as int)),
        decreases references@.len() - i,
    {
        let ghost before = text::views(r@);
        proof {
            assert(all.take(i + 1).drop_last() == all.take(i as int));
            assert(all.take(i + 1).last() == references@[i as int]@);
        }
        if !asked.contains(references[i].as_str()) {
            let reference = references[i].clone();
            r.push(reference);
            proof {
                assert(text::views(r@) == before.push(reference@));
            }
        }
        i += 1;
    }
    proof {
        assert(all.take(all.len() as int) == all);
    }
    r
}

/// Adds texts to a set.
fn add_all(asked: &mut TextSet, references: &Vec<String>)
    ensures
        final(asked)@ == old(asked)@.union(text::views(references@).to_set()),
{
    let ghost all = text::views(references@);
    let mut i: usize = 0;
    proof {
        assert(old(asked)@.union(all.take(0).to_set()) =~= old(asked)@);
    }
    while i < references.len()
        invariant
            i <= references@.len(),
            all == text::views(references@),
            asked@ == old(asked)@.union(all.take(i as int).to_set()),
        decreases references@.len() - i,
    {
        let ghost before = asked@;
        asked.insert(references[i].as_str());
        proof {
            let upto = all.take(i as int);
            let now = all.take(i + 1);
            assert(now == upto.push(references@[i as int]@));
            assert forall|x: Seq<char>| now.to_set().contains(x) <==> upto.to_set().contains(x) || x
                == references@[i as int]@ by {
                if upto.contains(x) {
                    let k = choose|k: int| 0 <= k < upto.len() && upto[k] == x;
                    assert(now[k] == x);
                }
                if now.contains(x) && x != references@[i as int]@ {
                    let k = choose|k: int| 0 <= k < now.len() && now[k] == x;
                    assert(upto[k] == x);
                }
                assert(now[i as int] == references@[i as int]@);
            }
            assert(asked@ =~= before.insert(references@[i as int]@));
            assert(asked@ =~= old(asked)@.union(now.to_set()));
        }
        i += 1;
    }
    proof {
        assert(all.take(all.len() as int) == all);
    }
}

impl ExtraView {
    /// The next round: those of the references that were not asked for before, sorted, each once.
    pub open spec fn with_round(self, references: Seq<Seq<char>>) -> ExtraView {
        ExtraView {
            references: order::sort_dedup_of(unasked(self.asked, references)),
            asked: self.asked.union(references.to_set()),
            jobs: Seq::empty(),
            unavailable: 0,
            deferred: 0,
            failures: 0,
            ..self
        }
    }

    /// The references from the first one on that has no known path.
    pub open spec fn unknown_from(self, references: Seq<Seq<char>>) -> Seq<Seq<char>>
        decreases references.len(),
    {
        if references.len() > 0 && self.known.contains_key(pathmap::lookup_key(references[0])) {
            self.unknown_from(references.skip(1))
        } else {
            references
        }
    }

    /// After a capture was found for the next reference.
    pub open spec fn after_found(self, record: cdx::RecordView, place: path::PathView) -> ExtraView {
        ExtraView {
            references: self.references.skip(1),
            known: self.known.insert(pathmap::lookup_key(self.references[0]), place).insert(
                pathmap::lookup_key(record.original),
                place,
            ),
            seen: self.seen.insert(place.text()),
            jobs: if self.seen.contains(place.text()) {
                self.jobs
            } else {
                self.jobs.push((record, place))
            },
            failures: 0,
            ..self
        }
    }

    /// After no capture was found for the next reference. Where the third lookup in a row found no
    /// connection, the references behind it are left for another run.
    pub open spec fn after_miss(self, no_connection: bool) -> ExtraView {
        let failures = if no_connection {
            retry::one_more(self.failures)
        } else {
            0
        };
        if !no_connection {
            ExtraView {
                references: self.references.skip(1),
                unavailable: (self.unavailable + 1) as usize,
                failures,
                ..self
            }
        } else if failures >= assets::MAX_CDX_CONNECTIVITY_FAILURES {
            ExtraView {
                references: Seq::empty(),
                deferred: (self.deferred + self.references.len()) as usize,
                failures,
                ..self
            }
        } else {
            ExtraView {
                references: self.references.skip(1),
                deferred: (self.deferred + 1) as usize,
                failures,
                ..self
            }
        }
    }
}

impl ExtraDownloads {
    /// Whether the counts belong to the references that were dealt with.
    pub closed spec fn well_formed(&self) -> bool {
        self.at <= self.references@.len() && self.unavailable + self.deferred <= self.at
    }

    /// The lookups for the references of the first round, sorted, each once.
    pub fn new(
        references: Vec<String>,
        known_paths: TextMap<LocalPath>,
        seen_paths: TextSet,
    ) -> (r: ExtraDownloads)
        ensures
            r.well_formed(),
            r@ == (ExtraView {
                references: order::sort_dedup_of(text::views(references@)),
                asked: text::views(references@).to_set(),
                known: known_paths@,
                seen: seen_paths@,
                jobs: Seq::empty(),
                unavailable: 0,
                deferred: 0,
                failures: 0,
            }),
    {
        let mut asked = TextSet::new();
        add_all(&mut asked, &references);
        let ghost all = text::views(references@);
        let sorted = order::sort_dedup(references);
        let r = ExtraDownloads {
            references: sorted,
            at: 0,
            asked,
            known_paths,
            seen_paths,
            jobs: Vec::new(),
            unavailable: 0,
            deferred: 0,
            streak: FailureStreak::new(),
        };
        proof {
            assert(text::views(r.references@).skip(0) == text::views(r.references@));
            assert(order::keys(r.jobs@) == Seq::<(cdx::RecordView, path::PathView)>::empty());
            assert(r.asked@ =~= all.to_set());
        }
        r
    }

    /// Starts the next round with the references that the files of this one hold: those that were
    /// not asked for before, each once. Tells whether there are any.
    pub fn next_round(&mut self, references: Vec<String>) -> (more: bool)
        ensures
            final(self).well_formed(),
            final(self)@ == old(self)@.with_round(text::views(references@)),
            more == (final(self)@.references.len() > 0),
    {
        let ghost all = text::views(references@);
        let ghost start = self@;
        let fresh = without_asked(&self.asked, references.clone());
        add_all(&mut self.asked, &references);
        self.references = order::sort_dedup(fresh);
        self.at = 0;
        self.jobs = Vec::new();
        self.unavailable = 0;
        self.deferred = 0;
        self.streak = FailureStreak::new();
        proof {
            assert(text::views(self.references@).skip(0) == text::views(self.references@));
            assert(order::keys(self.jobs@) == Seq::<(cdx::RecordView, path::PathView)>::empty());
            assert(self@ == start.with_round(all));
        }
        self.references.len() > 0
    }

    /// The next reference without a known path.
    pub fn next(&mut self) -> (r: Option<String>)
        requires
            old(self).well_formed(),
        ensures
            final(self).well_formed(),
            final(self)@ == (ExtraView {
                references: old(self)@.unknown_from(old(self)@.references),
                ..old(self)@
            }),
            match r {
                Some(reference) => final(self)@.references.len() > 0
                    && final(self)@.references[0] == reference@,
                None => final(self)@.references.len() == 0,
            },
    {
        let ghost all = text::views(self.references@);
        let ghost start = self@;
        while self.at < self.references.len()
            invariant
                self.well_formed(),
                start == old(self)@,
                all == text::views(self.references@),
                self@ == (ExtraView { references: all.skip(self.at as int), ..start }),
                start.unknown_from(start.references) == start.unknown_from(
                    all.skip(self.at as int),
                ),
            decreases self.references@.len() - self.at,
        {
            let reference = self.references[self.at].clone();
            proof {
                assert(all.skip(self.at as int)[0] == reference@);
                assert(all.skip(self.at as int).skip(1) == all.skip(self.at + 1));
            }
            let key = pathmap::normalize_lookup_url(reference.as_str());
            if !self.known_paths.contains(key.as_str()) {
                return Some(reference);
            }
            self.at = self.at + 1;
        }
        None
    }

    /// Takes what the lookup for the next reference has found.
    pub fn settle(&mut self, lookup: RecordLookup, mapper: &SiteMapper) -> (r: Result<(), UrlError>)
        requires
            old(self).well_formed(),
            old(self)@.references.len() > 0,
        ensures
            final(self).well_formed(),
            match captures::record_view(lookup.record) {
                Some(record) => match urls::url_parse(record.original) {
                    Ok(url) => r is Ok && final(self)@ == old(self)@.after_found(
                        record,
                        pathmap::local_path(mapper@, url, record.mimetype),
                    ),
                    Err(e) => r == Err::<(), UrlError>(e) && final(self)@ == old(self)@,
                },
                None => r is Ok && final(self)@ == old(self)@.after_miss(
                    lookup.connectivity_failed && !lookup.cdx_query_succeeded,
                ),
            },
    {
        let ghost all = text::views(self.references@);
        let n: usize = self.references.len();
        proof {
            assert(all.skip(self.at as int).len() > 0);
            assert(all.skip(self.at as int)[0] == self.references@[self.at as int]@);
            assert(all.skip(self.at as int).skip(1) == all.skip(self.at + 1));
            assert(all.skip(n as int) == Seq::<Seq<char>>::empty());
        }
        let no_connection = lookup.is_deferred();
        match lookup.record {
            Some(record) => {
                let place = match mapper.local_path_for_url(
                    record.original.as_str(),
                    record.mimetype.as_str(),
                ) {
                    Ok(p) => p,
                    Err(e) => {
                        return Err(e);
                    },
                };
                let asked = pathmap::normalize_lookup_url(self.references[self.at].as_str());
                let own = pathmap::normalize_lookup_url(record.original.as_str());
                self.known_paths.insert(asked.as_str(), place.duplicate());
                self.known_paths.insert(own.as_str(), place.duplicate());
                let ghost before = order::keys(self.jobs@);
                let ghost seen_before = self.seen_paths@;
                if self.seen_paths.insert(place.to_text().as_str()) {
                    let job = DownloadJob { record, local_path: place };
                    self.jobs.push(job);
                    proof {
                        assert(order::keys(self.jobs@) == before.push(job@));
                    }
                }
                self.streak.note(false);
                self.at = self.at + 1;
                Ok(())
            },
            None => {
                if no_connection {
                    if self.streak.note(true) {
                        self.deferred = self.deferred + (n - self.at);
                        self.at = n;
                    } else {
                        self.deferred = self.deferred + 1;
                        self.at = self.at + 1;
                    }
                } else {
                    self.streak.note(false);
                    self.unavailable = self.unavailable + 1;
                    self.at = self.at + 1;
                }
                Ok(())
            },
        }
    }
}

/// A step of a download or a repair behind the files that the index lists.
#[derive(Debug, Clone, Copy, PartialEq, Eq, Structural)]
pub enum Phase {
    /// Files that pages link to.
    LinkedFiles,
    /// Copies of topic pages.
    TopicAliases,
    /// Static files that pages miss.
    StaticAssets,
    /// Copies of static files that other captures of pages confirm.
    AlternateAliases,
    /// Copies of static files that other pages confirm.
    LocalAliases,
    /// References to resources that were not captured are taken away.
    RemoveResources,
    /// Links to downloads that were not captured are taken away.
    RemoveDownloadLinks,
    /// Links to pages that were not captured are taken away.
    RemoveLinks,
    /// The links are checked.
    Validate,
    /// The run was cancelled on the way.
    Stopped,
    Finished,
}

/// What decides on the next step.
#[derive(Debug, Clone, Copy)]
pub struct PhaseInputs {
    pub rewrite_links: bool,
    /// Whether linked and missing files are downloaded.
    pub extra_downloads: bool,
    pub validate_links: bool,
    /// Whether files were left out because the run was cancelled.
    pub files_cancelled: bool,
    /// Whether static files were left for another run.
    pub assets_deferred: bool,
    /// Whether the run is cancelled by now.
    pub cancelled: bool,
}

/// The place of a step in the order of the work.
pub open spec fn phase_rank(phase: Option<Phase>) -> int {
    match phase {
        None => 0,
        Some(Phase::LinkedFiles) => 1,
        Some(Phase::TopicAliases) => 2,
        Some(Phase::StaticAssets) => 3,
        Some(Phase::AlternateAliases) => 4,
        Some(Phase::LocalAliases) => 5,
        Some(Phase::RemoveResources) => 6,
        Some(Phase::RemoveDownloadLinks) => 7,
        Some(Phase::RemoveLinks) => 8,
        Some(Phase::Validate) => 9,
        Some(Phase::Stopped) => 10,
        Some(Phase::Finished) => 11,
    }
}

/// Whether a download has to do a step.
pub open spec fn download_needs(phase: Phase, inputs: PhaseInputs) -> bool {
    match phase {
        Phase::LinkedFiles | Phase::StaticAssets => inputs.extra_downloads,
        Phase::RemoveResources => inputs.extra_downloads && !inputs.assets_deferred,
        Phase::Validate => inputs.validate_links && !inputs.files_cancelled,
        _ => true,
    }
}

/// The step behind one of a download.
pub open spec fn next_of_download(done: Option<Phase>, inputs: PhaseInputs) -> Phase {
    let check = if download_needs(Phase::Validate, inputs) {
        Phase::Validate
    } else {
        Phase::Finished
    };
    match done {
        None => if !inputs.rewrite_links || inputs.files_cancelled {
            check
        } else if download_needs(Phase::LinkedFiles, inputs) {
            Phase::LinkedFiles
        } else {
            Phase::TopicAliases
        },
        Some(Phase::LinkedFiles) => Phase::TopicAliases,
        Some(Phase::TopicAliases) => if download_needs(Phase::StaticAssets, inputs) {
            Phase::StaticAssets
        } else {
            Phase::AlternateAliases
        },
        Some(Phase::StaticAssets) => Phase::AlternateAliases,
        Some(Phase::AlternateAliases) => Phase::LocalAliases,
        Some(Phase::LocalAliases) => if download_needs(Phase::RemoveResources, inputs) {
            Phase::RemoveResources
        } else if inputs.cancelled {
            Phase::Stopped
        } else {
            Phase::RemoveDownloadLinks
        },
        Some(Phase::RemoveResources) => if inputs.cancelled {
            Phase::Stopped
        } else {
            Phase::RemoveDownloadLinks
        },
        Some(Phase::RemoveDownloadLinks) => Phase::RemoveLinks,
        Some(Phase::RemoveLinks) => check,
        _ => Phase::Finished,
    }
}

/// The step behind one of a download, or the first one.
pub fn next_download_phase(done: Option<Phase>, inputs: PhaseInputs) -> (r: Phase)
    ensures
        r == next_of_download(done, inputs),
{
    let check = if inputs.validate_links && !inputs.files_cancelled {
        Phase::Validate
    } else {
        Phase::Finished
    };
    match done {
        None => if !inputs.rewrite_links || inputs.files_cancelled {
            check
        } else if inputs.extra_downloads {
            Phase::LinkedFiles
        } else {
            Phase::TopicAliases
        },
        Some(Phase::LinkedFiles) => Phase::TopicAliases,
        Some(Phase::TopicAliases) => if inputs.extra_downloads {
            Phase::StaticAssets
        } else {
            Phase::AlternateAliases
        },
        Some(Phase::StaticAssets) => Phase::AlternateAliases,
        Some(Phase::AlternateAliases) => Phase::LocalAliases,
        Some(Phase::LocalAliases) => if inputs.extra_downloads && !inputs.assets_deferred {
            Phase::RemoveResources
        } else if inputs.cancelled {
            Phase::Stopped
        } else {
            Phase::RemoveDownloadLinks
        },
        Some(Phase::RemoveResources) => if inputs.cancelled {
            Phase::Stopped
        } else {
            Phase::RemoveDownloadLinks
        },
        Some(Phase::RemoveDownloadLinks) => Phase::RemoveLinks,
        Some(Phase::RemoveLinks) => check,
        _ => Phase::Finished,
    }
}

/// The step behind one of a repair.
pub open spec fn next_of_repair(done: Option<Phase>, inputs: PhaseInputs) -> Phase {
    let check = if inputs.validate_links && !inputs.cancelled {
        Phase::Validate
    } else {
        Phase::Finished
    };
    match done {
        None => Phase::TopicAliases,
        Some(Phase::TopicAliases) => if inputs.extra_downloads {
            Phase::StaticAssets
        } else if inputs.cancelled {
            check
        } else {
            Phase::LocalAliases
        },
        Some(Phase::StaticAssets) => if inputs.cancelled {
            check
        } else {
            Phase::AlternateAliases
        },
        Some(Phase::AlternateAliases) => if inputs.cancelled {
            check
        } else {
            Phase::LocalAliases
        },
        Some(Phase::LocalAliases) => if inputs.extra_downloads && !inputs.assets_deferred {
            Phase::RemoveResources
        } else {
            Phase::RemoveDownloadLinks
        },
        Some(Phase::RemoveResources) => Phase::RemoveDownloadLinks,
        Some(Phase::RemoveDownloadLinks) => Phase::RemoveLinks,
        Some(Phase::RemoveLinks) => check,
        _ => Phase::Finished,
    }
}

/// The step behind one of a repair, or the first one.
pub fn next_repair_phase(done: Option<Phase>, inputs: PhaseInputs) -> (r: Phase)
    ensures
        r == next_of_repair(done, inputs),
{
    let check = if inputs.validate_links && !inputs.cancelled {
        Phase::Validate
    } else {
        Phase::Finished
    };
    match done {
        None => Phase::TopicAliases,
        Some(Phase::TopicAliases) => if inputs.extra_downloads {
            Phase::StaticAssets
        } else if inputs.cancelled {
            check
        } else {
            Phase::LocalAliases
        },
        Some(Phase::StaticAssets) => if inputs.cancelled {
            check
        } else {
            Phase::AlternateAliases
        },
        Some(Phase::AlternateAliases) => if inputs.cancelled {
            check
        } else {
            Phase::LocalAliases
        },
        Some(Phase::LocalAliases) => if inputs.extra_downloads && !inputs.assets_deferred {
            Phase::RemoveResources
        } else {
            Phase::RemoveDownloadLinks
        },
        Some(Phase::RemoveResources) => Phase::RemoveDownloadLinks,
        Some(Phase::RemoveDownloadLinks) => Phase::RemoveLinks,
        Some(Phase::RemoveLinks) => check,
        _ => Phase::Finished,
    }
}

/// The work goes on in one direction, so that it ends.
pub proof fn law_phases_advance(done: Option<Phase>, inputs: PhaseInputs)
    requires
        done != Some(Phase::Finished),
    ensures
        phase_rank(Some(next_of_download(done, inputs))) > phase_rank(done),
        phase_rank(Some(next_of_repair(done, inputs))) > phase_rank(done),
{
}

/// While static files are left for another run, or where none are downloaded, no reference to a
/// resource is taken away.
pub proof fn law_deferred_assets_keep_references(done: Option<Phase>, inputs: PhaseInputs)
    requires
        inputs.assets_deferred || !inputs.extra_downloads,
    ensures
        next_of_download(done, inputs) != Phase::RemoveResources,
        next_of_repair(done, inputs) != Phase::RemoveResources,
{
}

/// A download without rewriting changes no file behind its captures: it checks the links at most.
pub proof fn law_downloads_without_rewriting_only_check(inputs: PhaseInputs)
    requires
        !inputs.rewrite_links,
    ensures
        ({
            let next = next_of_download(None, inputs);
            next == Phase::Validate || next == Phase::Finished
        }),
{
}

/// Each lookup for a linked file uses up references, so that the lookups end.
pub proof fn law_linked_file_lookups_end(
    state: ExtraView,
    record: cdx::RecordView,
    place: path::PathView,
    no_connection: bool,
)
    requires
        state.references.len() > 0,
    ensures
        state.after_found(record, place).references.len() < state.references.len(),
        state.after_miss(no_connection).references.len() < state.references.len(),
{
}

/// What was not asked for are the references that were not.
proof fn lemma_unasked(asked: Set<Seq<char>>, references: Seq<Seq<char>>)
    ensures
        forall|x: Seq<char>| #[trigger]
            unasked(asked, references).contains(x) <==> references.contains(x) && !asked.contains(x),
    decreases references.len(),
{
    if references.len() > 0 {
        let front = references.drop_last();
        let last = references.last();
        lemma_unasked(asked, front);
        let before = unasked(asked, front);
        let after = unasked(asked, references);
        assert forall|x: Seq<char>| #[trigger]
            after.contains(x) <==> references.contains(x) && !asked.contains(x) by {
            assert(references[references.len() - 1] == last);
            if front.contains(x) {
                let k = choose|k: int| 0 <= k < front.len() && front[k] == x;
                assert(references[k] == x);
            }
            if references.contains(x) && x != last {
                let k = choose|k: int| 0 <= k < references.len() && references[k] == x;
                assert(front[k] == x);
            }
            if before.contains(x) {
                let k = choose|k: int| 0 <= k < before.len() && before[k] == x;
                assert(after[k] == x);
            }
            if after.contains(x) && !before.contains(x) {
                let k = choose|k: int| 0 <= k < after.len() && after[k] == x;
                if k < before.len() {
                    assert(before[k] == x);
                }
            }
            if !asked.contains(last) {
                assert(after[after.len() - 1] == last);
            }
        }
    }
}

/// Each reference is asked for exactly once: a round asks for those that are new, each once; what was
/// asked for is never asked for again; and where there is a next round, more was asked for than
/// before, so that over finitely many references the rounds end.
pub proof fn law_references_are_asked_for_once(state: ExtraView, references: Seq<Seq<char>>)
    ensures
        ({
            let next = state.with_round(references);
            &&& forall|x: Seq<char>| #[trigger]
                next.references.contains(x) <==> references.contains(x) && !state.asked.contains(x)
            &&& next.references.no_duplicates()
            &&& forall|x: Seq<char>| #[trigger]
                next.asked.contains(x) <==> state.asked.contains(x) || references.contains(x)
            &&& next.references.len() > 0 ==> state.asked != next.asked
            &&& next.references.len() == 0 ==> state.asked == next.asked
            &&& next.with_round(references).references.len() == 0
        }),
{
    let next = state.with_round(references);
    let fresh = unasked(state.asked, references);
    lemma_unasked(state.asked, references);
    order::lemma_sort_dedup_of(fresh);
    assert forall|x: Seq<char>| #[trigger]
        next.references.contains(x) <==> references.contains(x) && !state.asked.contains(x) by {
        assert(order::sort_dedup_of(fresh).contains(x) <==> fresh.contains(x));
    }
    assert forall|i: int, j: int|
        0 <= i < next.references.len() && 0 <= j < next.references.len() && i
            != j implies next.references[i] != next.references[j] by {
        if i < j {
            assert(order::text_lt(next.references[i], next.references[j]));
        } else {
            assert(order::text_lt(next.references[j], next.references[i]));
        }
    }
    if next.references.len() > 0 {
        let x = next.references[0];
        assert(next.references.contains(x));
        assert(next.asked.contains(x));
    } else {
        assert forall|x: Seq<char>| references.contains(x) implies state.asked.contains(x) by {
            if !state.asked.contains(x) {
                assert(next.references.contains(x));
            }
        }
        assert(next.asked =~= state.asked);
    }
    let again = next.with_round(references);
    lemma_unasked(next.asked, references);
    order::lemma_sort_dedup_of(unasked(next.asked, references));
    if again.references.len() > 0 {
        let x = again.references[0];
        assert(again.references.contains(x));
        assert(unasked(next.asked, references).contains(x));
    }
}

/// A linked file for which a capture was found is known under the reference and under the URL of
/// the capture, so that pages can be linked to it.
pub proof fn law_found_files_are_known(
    state: ExtraView,
    record: cdx::RecordView,
    place: path::PathView,
)
    requires
        state.references.len() > 0,
    ensures
        ({
            let after = state.after_found(record, place);
            &&& after.known.contains_key(pathmap::lookup_key(state.references[0]))
            &&& after.known[pathmap::lookup_key(state.references[0])] == place
            &&& after.known.contains_key(pathmap::lookup_key(record.original))
            &&& after.known[pathmap::lookup_key(record.original)] == place
        }),
{
}

impl RecoveryRecordsView {
    /// Whether each capture is held once.
    pub open spec fn is_distinct(self) -> bool {
        &&& forall|i: int|
            0 <= i < self.records.len() ==> self.seen.contains(
                captures::capture_key(#[trigger] self.records[i]),
            )
        &&& forall|i: int, j: int|
            0 <= i < j < self.records.len() ==> captures::capture_key(#[trigger] self.records[i])
                != captures::capture_key(#[trigger] self.records[j])
    }
}

/// Captures that several queries find are held once.
pub proof fn law_merged_captures_are_distinct(
    state: RecoveryRecordsView,
    found: Seq<cdx::RecordView>,
)
    requires
        state.is_distinct(),
    ensures
        state.with(found).is_distinct(),
    decreases found.len(),
{
    if found.len() > 0 {
        law_merged_captures_are_distinct(state, found.drop_last());
        let before = state.with(found.drop_last());
        let after = state.with(found);
        assert forall|i: int| 0 <= i < after.records.len() implies after.seen.contains(
            captures::capture_key(#[trigger] after.records[i]),
        ) by {
            if i < before.records.len() {
                assert(after.records[i] == before.records[i]);
            }
        }
        assert forall|i: int, j: int| 0 <= i < j < after.records.len() implies captures::capture_key(
            #[trigger] after.records[i],
        ) != captures::capture_key(#[trigger] after.records[j]) by {
            assert(after.records[i] == before.records[i]);
            if j < before.records.len() {
                assert(after.records[j] == before.records[j]);
            }
        }
    }
}

/// The steps of a download behind its captures, each with the one that follows it. Without rewriting,
/// or where files were left out, only the links are checked; without downloads of linked files the
/// steps for these are left out; and a cancelled run stops before links are taken away.
pub proof fn law_steps_of_a_download(inputs: PhaseInputs)
    ensures
        ({
            let check = if inputs.validate_links && !inputs.files_cancelled {
                Phase::Validate
            } else {
                Phase::Finished
            };
            let links = if inputs.cancelled {
                Phase::Stopped
            } else {
                Phase::RemoveDownloadLinks
            };
            &&& next_of_download(None, inputs) == if !inputs.rewrite_links || inputs.files_cancelled {
                check
            } else if inputs.extra_downloads {
                Phase::LinkedFiles
            } else {
                Phase::TopicAliases
            }
            &&& next_of_download(Some(Phase::LinkedFiles), inputs) == Phase::TopicAliases
            &&& next_of_download(Some(Phase::TopicAliases), inputs) == if inputs.extra_downloads {
                Phase::StaticAssets
            } else {
                Phase::AlternateAliases
            }
            &&& next_of_download(Some(Phase::StaticAssets), inputs) == Phase::AlternateAliases
            &&& next_of_download(Some(Phase::AlternateAliases), inputs) == Phase::LocalAliases
            &&& next_of_download(Some(Phase::LocalAliases), inputs) == if inputs.extra_downloads
                && !inputs.assets_deferred {
                Phase::RemoveResources
            } else {
                links
            }
            &&& next_of_download(Some(Phase::RemoveResources), inputs) == links
            &&& next_of_download(Some(Phase::RemoveDownloadLinks), inputs) == Phase::RemoveLinks
            &&& next_of_download(Some(Phase::RemoveLinks), inputs) == check
            &&& next_of_download(Some(Phase::Validate), inputs) == Phase::Finished
            &&& next_of_download(Some(Phase::Stopped), inputs) == Phase::Finished
        }),
{
}

/// The steps of a repair, each with the one that follows it. A cancelled repair goes no further than
/// the step that it is at, and checks no links.
pub proof fn law_steps_of_a_repair(inputs: PhaseInputs)
    ensures
        ({
            let check = if inputs.validate_links && !inputs.cancelled {
                Phase::Validate
            } else {
                Phase::Finished
            };
            &&& next_of_repair(None, inputs) == Phase::TopicAliases
            &&& next_of_repair(Some(Phase::TopicAliases), inputs) == if inputs.extra_downloads {
                Phase::StaticAssets
            } else if inputs.cancelled {
                Phase::Finished
            } else {
                Phase::LocalAliases
            }
            &&& next_of_repair(Some(Phase::StaticAssets), inputs) == if inputs.cancelled {
                Phase::Finished
            } else {
                Phase::AlternateAliases
            }
            &&& next_of_repair(Some(Phase::AlternateAliases), inputs) == if inputs.cancelled {
                Phase::Finished
            } else {
                Phase::LocalAliases
            }
            &&& next_of_repair(Some(Phase::LocalAliases), inputs) == if inputs.extra_downloads
                && !inputs.assets_deferred {
                Phase::RemoveResources
            } else {
                Phase::RemoveDownloadLinks
            }
            &&& next_of_repair(Some(Phase::RemoveResources), inputs) == Phase::RemoveDownloadLinks
            &&& next_of_repair(Some(Phase::RemoveDownloadLinks), inputs) == Phase::RemoveLinks
            &&& next_of_repair(Some(Phase::RemoveLinks), inputs) == check
            &&& next_of_repair(Some(Phase::Validate), inputs) == Phase::Finished
        }),
{
}

/// Of the captures of one path the first is kept. Where only static files within a limit count, a
/// capture that is known to be larger does not, nor does one whose file has another extension.
pub proof fn law_first_capture_of_a_path_is_kept(
    mapper: pathmap::MapperView,
    records: Seq<cdx::RecordView>,
    record: cdx::RecordView,
    within: Option<u64>,
    url: urls::UrlView,
    index: Map<Seq<char>, cdx::RecordView>,
)
    requires
        by_path(mapper, records, within) == Ok::<Map<Seq<char>, cdx::RecordView>, UrlError>(index),
        urls::url_parse(record.original) == Ok::<urls::UrlView, UrlError>(url),
    ensures
        ({
            let place = pathmap::local_path(mapper, url, record.mimetype);
            let counts = within matches Some(max) ==> (record.length matches Some(n) ==> n <= max)
                && assets::static_asset(place);
            by_path(mapper, records.push(record), within) == Ok::<
                Map<Seq<char>, cdx::RecordView>,
                UrlError,
            >(
                if counts && !index.contains_key(place.text()) {
                    index.insert(place.text(), record)
                } else {
                    index
                },
            )
        }),
        by_path(mapper, Seq::empty(), within) == Ok::<Map<Seq<char>, cdx::RecordView>, UrlError>(
            Map::empty(),
        ),
{
    assert(records.push(record).drop_last() == records);
}

/// A capture becomes a file at its known path, unless another one has become it before: then it counts
/// as a duplicate. One without a known path is left out.
pub proof fn law_captures_are_planned_in_turn(
    known: Map<Seq<char>, path::PathView>,
    records: Seq<cdx::RecordView>,
    record: cdx::RecordView,
)
    ensures
        ({
            let key = pathmap::lookup_key(record.original);
            let before = planned(known, records);
            let after = planned(known, records.push(record));
            let taken = exists|i: int|
                0 <= i < before.jobs.len() && (#[trigger] before.jobs[i]).1.text()
                    == known[key].text();
            &&& !known.contains_key(key) ==> after == before
            &&& known.contains_key(key) && taken ==> after.jobs == before.jobs && after.duplicates
                == before.duplicates + 1
            &&& known.contains_key(key) && !taken ==> after.jobs == before.jobs.push(
                (record, known[key]),
            ) && after.duplicates == before.duplicates
        }),
{
    assert(records.push(record).drop_last() == records);
    lemma_seen_are_planned(known, records, known[pathmap::lookup_key(record.original)].text());
}

/// The paths that a plan has seen are those of its files.
proof fn lemma_seen_are_planned(
    known: Map<Seq<char>, path::PathView>,
    records: Seq<cdx::RecordView>,
    place: Seq<char>,
)
    ensures
        planned(known, records).seen.contains(place) <==> exists|i: int|
            0 <= i < planned(known, records).jobs.len() && (#[trigger] planned(
                known,
                records,
            ).jobs[i]).1.text() == place,
    decreases records.len(),
{
    if records.len() > 0 {
        let front = records.drop_last();
        lemma_seen_are_planned(known, front, place);
        let before = planned(known, front);
        let after = planned(known, records);
        if exists|i: int|
            0 <= i < before.jobs.len() && (#[trigger] before.jobs[i]).1.text() == place {
            let i = choose|i: int|
                0 <= i < before.jobs.len() && (#[trigger] before.jobs[i]).1.text() == place;
            assert(after.jobs[i] == before.jobs[i]);
        }
        if after.jobs.len() > before.jobs.len() {
            let last = after.jobs.len() - 1;
            assert(after.jobs[last].1
                == known[pathmap::lookup_key(records.last().original)]);
            if exists|i: int|
                0 <= i < after.jobs.len() && (#[trigger] after.jobs[i]).1.text() == place {
                let i = choose|i: int|
                    0 <= i < after.jobs.len() && (#[trigger] after.jobs[i]).1.text() == place;
                if i < last {
                    assert(before.jobs[i] == after.jobs[i]);
                }
            }
        }
    }
}

/// A capture that a query finds is held from then on, behind those that were held before, unless one of
/// the same time and page is.
pub proof fn law_found_captures_are_held(
    state: RecoveryRecordsView,
    found: Seq<cdx::RecordView>,
    record: cdx::RecordView,
)
    ensures
        state.with(Seq::empty()) == state,
        ({
            let before = state.with(found);
            let after = state.with(found.push(record));
            &&& after.records == if before.seen.contains(captures::capture_key(record)) {
                before.records
            } else {
                before.records.push(record)
            }
            &&& after.seen == before.seen.insert(captures::capture_key(record))
            &&& after.failed == before.failed
        }),
{
    assert(found.push(record).drop_last() == found);
    let before = state.with(found);
    if before.seen.contains(captures::capture_key(record)) {
        assert(before.seen.insert(captures::capture_key(record)) == before.seen);
    }
}

/// A linked file that was found becomes a file of the download where no other has its path. One that
/// was not found is unavailable, or left for another run where no query was answered; the third such
/// lookup in a row leaves all that are open for another run.
pub proof fn law_linked_files_are_counted(
    state: ExtraView,
    record: cdx::RecordView,
    place: path::PathView,
)
    requires
        state.references.len() > 0,
        state.failures < 3,
        state.unavailable < usize::MAX,
        state.deferred + state.references.len() <= usize::MAX,
    ensures
        ({
            let found = state.after_found(record, place);
            let missed = state.after_miss(false);
            let unanswered = state.after_miss(true);
            &&& found.jobs == if state.seen.contains(place.text()) {
                state.jobs
            } else {
                state.jobs.push((record, place))
            }
            &&& found.references == state.references.skip(1)
            &&& found.failures == 0
            &&& found.unavailable == state.unavailable && found.deferred == state.deferred
            &&& missed.unavailable == state.unavailable + 1
            &&& missed.deferred == state.deferred
            &&& missed.failures == 0
            &&& missed.references == state.references.skip(1)
            &&& unanswered.unavailable == state.unavailable
            &&& unanswered.failures == state.failures + 1
            &&& state.failures < 2 ==> unanswered.deferred == state.deferred + 1
                && unanswered.references == state.references.skip(1)
            &&& state.failures == 2 ==> unanswered.deferred == state.deferred
                + state.references.len() && unanswered.references.len() == 0
            &&& missed.jobs == state.jobs && unanswered.jobs == state.jobs
            &&& missed.known == state.known && unanswered.known == state.known
        }),
{
}

/// A document is written with its references rewritten, a style sheet as one and any other as a page,
/// and the URLs of the site that it refers to are told in order, each once.
pub proof fn law_documents_are_prepared(
    context: rewrite::ContextView,
    mapper: pathmap::MapperView,
    content: Seq<char>,
    nodes: Seq<html::NodeView>,
    changed: Seq<char>,
)
    requires
        html::html_nodes(content) == Some(nodes),
        rewrite::rewritten_html(context, content) == Some(changed),
    ensures
        ({
            let page = prepared(context, mapper, content, false);
            let sheet = prepared(context, mapper, content, true);
            let values = link_validation::all_references(nodes);
            &&& page matches Some(p) && p.0 == changed && forall|x: Seq<char>| #[trigger]
                p.1.contains(x) <==> download_refs::related_urls(
                    context.original.href,
                    mapper,
                    values,
                ).contains(x)
            &&& sheet matches Some(p) && p.0 == rewrite::rewritten_css(context, content)
        }),
{
    let values = link_validation::all_references(nodes);
    order::lemma_sort_dedup_of(
        download_refs::related_urls(context.original.href, mapper, values),
    );
}

/// A cancelled run fetches nothing. A file that is there is kept where files are not to be replaced,
/// unless it holds an error page and such files are to be recovered; an empty one is fetched anew, and
/// so is every file where files may be replaced.
pub proof fn law_files_that_are_there_are_kept(
    cancelled: bool,
    no_clobber: bool,
    recover_existing: bool,
    filled: bool,
    unusable: bool,
)
    ensures
        step_for(true, no_clobber, recover_existing, filled, unusable) == FirstStep::Cancelled,
        step_for(false, true, recover_existing, true, false) == FirstStep::Skip,
        step_for(false, true, false, true, unusable) == FirstStep::Skip,
        step_for(false, true, true, true, true) == FirstStep::Fetch,
        step_for(false, no_clobber, recover_existing, false, unusable) == FirstStep::Fetch,
        step_for(false, false, recover_existing, filled, unusable) == FirstStep::Fetch,
        step_for(cancelled, no_clobber, recover_existing, filled, unusable) == FirstStep::Cancelled
            ==> cancelled,
{
}

/// A page that is worth something is always written; one that is not is written where there is no file
/// yet, or only another of no worth, and never over a file that holds something.
pub proof fn law_error_pages_replace_nothing(filled: bool, existing_unusable: bool, unusable: bool)
    ensures
        is_writable(filled, existing_unusable, false),
        is_writable(false, existing_unusable, unusable),
        is_writable(filled, true, unusable),
        !is_writable(true, false, true),
{
}

/// A repair asks for each host of the site where hosts are matched, and otherwise for the host that was
/// asked for.
pub proof fn law_repairs_ask_for_the_hosts_of_the_site(mapper: pathmap::MapperView)
    ensures
        recovery_targets(mapper, MatchType::Host) == mapper.primary_hosts,
        recovery_targets(mapper, MatchType::Exact) == seq![mapper.root_host],
        recovery_targets(mapper, MatchType::Prefix) == seq![mapper.root_host],
        recovery_targets(mapper, MatchType::Domain) == seq![mapper.root_host],
{
}

/// Each file is counted once by what became of it: as written, also where only an error page was; as
/// skipped, cancelled, unavailable or failed. A linked file that was written or is unavailable is
/// counted as one as well.
pub proof fn law_files_are_counted(report: DownloadReport, linked: bool)
    requires
        report.downloaded < usize::MAX,
        report.extra_downloads < usize::MAX,
        report.retained_unusable < usize::MAX,
        report.skipped < usize::MAX,
        report.cancelled < usize::MAX,
        report.unavailable_snapshots < usize::MAX,
        report.linked_files_unavailable < usize::MAX,
        report.failed < usize::MAX,
    ensures
        ({
            let one: int = if linked {
                1
            } else {
                0
            };
            let r = report;
            &&& r.counted(JobOutcome::Downloaded, linked) == (DownloadReport {
                downloaded: (r.downloaded + 1) as usize,
                extra_downloads: (r.extra_downloads + one) as usize,
                ..r
            })
            &&& r.counted(JobOutcome::RetainedUnusable, linked) == (DownloadReport {
                downloaded: (r.downloaded + 1) as usize,
                extra_downloads: (r.extra_downloads + one) as usize,
                retained_unusable: (r.retained_unusable + 1) as usize,
                ..r
            })
            &&& r.counted(JobOutcome::Skipped, linked) == (DownloadReport {
                skipped: (r.skipped + 1) as usize,
                ..r
            })
            &&& r.counted(JobOutcome::Cancelled, linked) == (DownloadReport {
                cancelled: (r.cancelled + 1) as usize,
                ..r
            })
            &&& r.counted(JobOutcome::Unavailable, linked) == (DownloadReport {
                unavailable_snapshots: (r.unavailable_snapshots + 1) as usize,
                linked_files_unavailable: (r.linked_files_unavailable + one) as usize,
                ..r
            })
            &&& r.counted(JobOutcome::Failed, linked) == (DownloadReport {
                failed: (r.failed + 1) as usize,
                ..r
            })
        }),
{
}

/// References whose files are known are passed over: the next one asked for is the first that is not
/// known.
pub proof fn law_known_references_are_passed_over(state: ExtraView, references: Seq<Seq<char>>)
    requires
        references.len() > 0,
    ensures
        state.known.contains_key(pathmap::lookup_key(references[0])) ==> state.unknown_from(references)
            == state.unknown_from(references.skip(1)),
        !state.known.contains_key(pathmap::lookup_key(references[0])) ==> state.unknown_from(
            references,
        ) == references,
        state.unknown_from(Seq::empty()) == Seq::<Seq<char>>::empty(),
{
}

} // verus!

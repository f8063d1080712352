use webarchive_downloader_rust::assets::{
    candidate_reference_appears, create_missing_static_asset_aliases, is_recoverable_static_asset,
    lookup_outcome, missing_static_asset_alias_requests, missing_static_asset_links,
    missing_static_asset_targets, static_asset_alias_candidates, take_confirmed_requests,
    AliasSearch, AliasStep, AssetOutcome, MissingStaticAssetLink, StaticAssetAliasRequest,
    StaticAssetRecovery,
};
use webarchive_downloader_rust::captures::{
    capture_key_of, choose_capture, fallback_capture_targets, is_unusable_capture, may_take,
    mentions_site_identity, site_identity_terms, AlternateCaptures, CaptureChoice, CaptureSearch,
    FetchOutcome, RecordLookup, SearchOutcome, SearchStep, Verdict,
    MAX_ALTERNATE_PAGE_CAPTURE_CHECKS,
};
use webarchive_downloader_rust::cdx::{CdxRecord, MatchType};
use webarchive_downloader_rust::downloader::{
    filter_archive_noise, first_step, may_write, next_download_phase, next_repair_phase, plan_jobs,
    prepare_document, recoverable_static_records_by_path, records_by_local_path,
    recovery_cdx_targets, snapshot_url, still_unavailable, CancellationFlag, DownloadReport,
    ExtraDownloads, FirstStep, JobOutcome, NoRecoveryRecords, Phase, PhaseInputs, PrepareError,
    RecoveryRecords,
};
use webarchive_downloader_rust::link_validation::{
    validate_local_links, MissingLocalLink, SiteFiles, SourceFile,
};
use webarchive_downloader_rust::maps::{TextMap, TextSet};
use webarchive_downloader_rust::path::LocalPath;
use webarchive_downloader_rust::pathmap::SiteMapper;
use webarchive_downloader_rust::retry::{NextStep, MAX_WAYBACK_RETRY_DELAY_SECONDS};
use webarchive_downloader_rust::snapshots::{
    is_retryable_snapshot_status, is_unavailable_snapshot_status, snapshot_retry_after_delay,
    temp_path_for, InvalidSnapshotUrl, RetrySleep, SizeLimit, SleepStep, SnapshotOutcome,
    SnapshotRequest,
};
use webarchive_downloader_rust::urls::UrlError;

fn record(timestamp: &str, original: &str, mimetype: &str, digest: &str) -> CdxRecord {
    CdxRecord {
        timestamp: timestamp.to_owned(),
        original: original.to_owned(),
        mimetype: mimetype.to_owned(),
        status_code: 200,
        digest: digest.to_owned(),
        length: Some(512),
    }
}

fn path(text: &str) -> LocalPath {
    LocalPath::parse(text)
}

fn site(names: &[&str]) -> SiteFiles {
    let paths = names.iter().map(|name| path(&format!("/site/{name}"))).collect();
    SiteFiles::new(&path("/site"), &paths)
}

fn missing(source: &str, target: &str) -> MissingLocalLink {
    MissingLocalLink {
        source: path(&format!("/site/{source}")),
        href: target.to_owned(),
        target: path(&format!("/site/{target}")),
    }
}

#[test]
fn builds_identity_snapshot_url() {
    let record = record("20200102030405", "http://example.com/", "text/html", "digest");

    assert_eq!(
        snapshot_url("https://web.archive.org", &record).unwrap(),
        "https://web.archive.org/web/20200102030405id_/http://example.com/"
    );
    assert_eq!(snapshot_url("web.archive.org", &record), Err(InvalidSnapshotUrl));
}

#[test]
fn retries_only_transient_snapshot_statuses() {
    assert!(is_retryable_snapshot_status(429));
    assert!(is_retryable_snapshot_status(502));
    assert!(!is_retryable_snapshot_status(404));
    assert!(!is_retryable_snapshot_status(403));
}

#[test]
fn classifies_permanently_unavailable_snapshot_statuses() {
    assert!(is_unavailable_snapshot_status(404));
    assert!(is_unavailable_snapshot_status(410));
    assert!(is_unavailable_snapshot_status(451));
    assert!(!is_unavailable_snapshot_status(403));
    assert!(!is_unavailable_snapshot_status(429));
    assert!(!is_unavailable_snapshot_status(502));
}

#[test]
fn treats_forbidden_snapshot_status_as_ssh_fallback_only() {
    assert!(!is_retryable_snapshot_status(403));
    let request = SnapshotRequest::new();
    let forbidden = SnapshotOutcome::Responded { status: 403, retry_after: None };
    assert_eq!(request.next_step(forbidden, false), NextStep::SwitchOrGiveUp);
}

#[test]
fn caps_snapshot_retry_delay() {
    assert_eq!(snapshot_retry_after_delay(Some("999999"), 0), MAX_WAYBACK_RETRY_DELAY_SECONDS);
    assert_eq!(snapshot_retry_after_delay(None, 100), MAX_WAYBACK_RETRY_DELAY_SECONDS);
}

#[test]
fn snapshot_requests_wait_longer_each_time() {
    let mut request = SnapshotRequest::new();
    let busy = SnapshotOutcome::Responded { status: 503, retry_after: None };
    assert_eq!(request.next_step(busy, false), NextStep::Wait);
    assert_eq!(request.wait(busy).seconds, 5);
    assert_eq!(request.wait(busy).seconds, 10);
    assert_eq!(request.next_step(busy, false), NextStep::SwitchOrWait);
    let broken = SnapshotOutcome::ReadFailed { retryable: false };
    assert_eq!(request.next_step(broken, false), NextStep::GiveUp);
    let gone = SnapshotOutcome::Responded { status: 404, retry_after: None };
    assert_eq!(request.next_step(gone, true), NextStep::GiveUp);
    request.switched();
    assert_eq!(request.wait(busy).seconds, 5);
}

#[test]
fn waits_notice_cancellations() {
    let mut sleep = RetrySleep::new(1500);
    assert_eq!(sleep.step(false), SleepStep::Sleep { millis: 1000 });
    assert_eq!(sleep.step(true), SleepStep::Cancelled);
    assert_eq!(sleep.step(false), SleepStep::Sleep { millis: 500 });
    assert_eq!(sleep.step(true), SleepStep::Done);
}

#[test]
fn sizes_are_limited() {
    let mut limit = SizeLimit::new(10);
    assert!(limit.admits(None));
    assert!(limit.admits(Some(10)));
    assert!(!limit.admits(Some(11)));
    assert!(limit.count(6));
    assert!(!limit.count(5));
}

#[test]
fn unfinished_files_stay_beside() {
    assert_eq!(
        temp_path_for(&path("/site/a/index.html")).to_text(),
        "/site/a/.index.html.webarchive-downloader-rust.tmp"
    );
}

#[test]
fn extracts_site_identity_terms_from_url() {
    assert_eq!(
        site_identity_terms("https://www.smallrockets.com/"),
        vec!["smallrockets".to_owned(), "smallrockets.com".to_owned()]
    );
}

#[test]
fn checks_site_identity_case_insensitively() {
    let terms = site_identity_terms("https://smallrockets.com/");

    assert!(mentions_site_identity("Small Rockets - Creators of downloadable games", &terms));
    assert!(!mentions_site_identity(
        "The Blue Ribbon Foundation - Male Health and Wellbeing Charity",
        &terms
    ));
}

#[test]
fn fallback_targets_include_canonical_url_without_volatile_query() {
    assert_eq!(
        fallback_capture_targets("http://example.com/forums/viewforum.php?f=21&sid=abcdef"),
        vec![
            "http://example.com/forums/viewforum.php?f=21&sid=abcdef".to_owned(),
            "http://example.com/forums/viewforum.php?f=21".to_owned(),
        ]
    );
}

#[test]
fn classifies_recoverable_static_assets() {
    assert!(is_recoverable_static_asset(&path("images/screen5.jpg")));
    assert!(is_recoverable_static_asset(&path("css/site.css")));
    assert!(!is_recoverable_static_asset(&path("forums/viewtopic.php")));
    assert!(!is_recoverable_static_asset(&path("index.html")));
}

#[test]
fn collects_missing_static_asset_targets_for_recovery() {
    let sources = vec![SourceFile {
        path: path("/site/index.html"),
        text: r#"<img src="images/missing.gif"><a href="missing.html">Missing page</a>"#.to_owned(),
    }];
    let report = validate_local_links(&site(&["index.html"]), &sources).unwrap();

    let targets = missing_static_asset_targets(&path("/site"), &report.missing);

    assert_eq!(
        targets.iter().map(|target| target.to_text()).collect::<Vec<_>>(),
        vec!["images/missing.gif"]
    );
}

#[test]
fn indexes_recoverable_static_records_by_local_path() {
    let mapper = SiteMapper::new("example.com").unwrap();
    let records = vec![
        record("20200102030405", "http://www.example.com:80/images/logo.gif", "image/gif", "digest"),
        record("20200102030405", "http://www.example.com/about/", "text/html", "digest"),
    ];

    let records_by_path = recoverable_static_records_by_path(&mapper, &records, 1024).unwrap();

    assert_eq!(
        records_by_path.get("images/logo.gif").map(|record| record.original.as_str()),
        Some("http://www.example.com:80/images/logo.gif")
    );
    assert!(!records_by_path.contains("about/index.html"));
    assert!(records_by_local_path(&mapper, &records).unwrap().contains("about/index.html"));
    let small = recoverable_static_records_by_path(&mapper, &records, 511).unwrap();
    assert!(!small.contains("images/logo.gif"));
}

#[test]
fn malformed_urls_spoil_an_index() {
    let mapper = SiteMapper::new("example.com").unwrap();
    let records = vec![record("20200102030405", "no url", "image/gif", "digest")];
    assert!(records_by_local_path(&mapper, &records).is_err());
}

#[test]
fn the_first_malformed_url_that_counts_is_reported() {
    let mapper = SiteMapper::new("example.com").unwrap();
    let mut relative = record("20200102030405", "no url", "image/gif", "A");
    relative.length = Some(2048);
    let malformed = record("20200102030405", "http://", "image/gif", "B");
    let records = vec![relative, malformed];
    assert_eq!(
        records_by_local_path(&mapper, &records).err(),
        Some(UrlError::RelativeUrlWithoutBase)
    );
    assert_eq!(
        recoverable_static_records_by_path(&mapper, &records, 1024).err(),
        Some(UrlError::Malformed)
    );
}

#[test]
fn builds_conservative_static_asset_alias_candidates() {
    let candidates = |target: &str| {
        static_asset_alias_candidates(&path(target))
            .iter()
            .map(|candidate| candidate.to_text())
            .collect::<Vec<_>>()
    };
    assert_eq!(
        candidates("pc/poker/images/screen4.jpg"),
        vec!["pc/poker/images/screenshot4.jpg"]
    );
    assert_eq!(
        candidates("pc/poker/images/screenshot4.jpg"),
        vec!["pc/poker/images/screen4.jpg"]
    );
    assert!(candidates("images/screenplay.jpg").is_empty());
}

#[test]
fn detects_static_asset_alias_reference_in_alternate_capture() {
    let source = path("pc/poker/screenshots__q_bd691b51ee9522b5.htm");
    let candidate = path("pc/poker/images/screenshot4.jpg");

    assert!(candidate_reference_appears(
        r#"<img src="images/screenshot4.jpg">"#,
        &source,
        &candidate
    ));
    assert!(candidate_reference_appears(
        r#"<img src="/pc/poker/images/screenshot4.jpg">"#,
        &source,
        &candidate
    ));
    assert!(!candidate_reference_appears(
        r#"<img src="images/other.jpg">"#,
        &source,
        &candidate
    ));
}

fn poker_aliases(texts: &[(&str, &str)]) -> Vec<(String, String)> {
    let texts: Vec<SourceFile> = texts
        .iter()
        .map(|(name, text)| SourceFile { path: path(name), text: (*text).to_owned() })
        .collect();
    let links = missing_static_asset_links(
        &path("/site"),
        &vec![missing("pc/poker/page.html", "pc/poker/images/screen4.jpg")],
    );
    create_missing_static_asset_aliases(
        site(&["pc/poker/images/screenshot4.jpg", "pc/poker/page.html"]),
        texts,
        &links,
    )
    .iter()
    .map(|copy| (copy.source.to_text(), copy.target.to_text()))
    .collect()
}

#[test]
fn creates_missing_static_asset_alias_from_clear_sibling() {
    let copies = poker_aliases(&[
        ("pc/poker/page.html", r#"<img src="images/screen4.jpg">"#),
        ("pc/poker/screenshot4.htm", r#"<img src="images/screenshot4.jpg">"#),
    ]);
    assert_eq!(
        copies,
        vec![(
            "/site/pc/poker/images/screenshot4.jpg".to_owned(),
            "/site/pc/poker/images/screen4.jpg".to_owned()
        )]
    );
}

#[test]
fn leaves_static_asset_alias_uncreated_without_local_evidence() {
    assert!(poker_aliases(&[("pc/poker/page.html", r#"<img src="images/screen4.jpg">"#)])
        .is_empty());
    assert!(poker_aliases(&[("pc/other/x.htm", r#"<img src="/pc/poker/images/screenshot4.jpg">"#)])
        .is_empty());
}

#[test]
fn other_captures_of_a_page_confirm_names() {
    let mut selected = TextMap::new();
    selected.insert("pc/page.html", record("20200101000000", "http://example.com/pc/page.html", "text/html", "A"));
    let mut recoverable = TextMap::new();
    recoverable.insert("pc/screenshot4.jpg", record("20200101000000", "http://example.com/pc/screenshot4.jpg", "image/jpeg", "B"));
    let links = vec![
        MissingStaticAssetLink { source: path("pc/page.html"), target: path("pc/screen4.jpg") },
        MissingStaticAssetLink { source: path("pc/page.html"), target: path("pc/screen5.jpg") },
        MissingStaticAssetLink { source: path("pc/unknown.html"), target: path("pc/screen4.jpg") },
    ];
    let requests =
        missing_static_asset_alias_requests(&site(&[]), &selected, &recoverable, &links);
    assert_eq!(requests.len(), 1);
    let mut search = AliasSearch::new(requests);
    match search.next() {
        AliasStep::LookUp(source) => assert_eq!(source.to_text(), "pc/page.html"),
        _ => panic!(),
    }
    search.looked_up(vec![
        record("20190101000000", "http://example.com/pc/page.html", "text/html", "C"),
        record("20180101000000", "http://example.com/pc/page.html", "text/html", "D"),
    ]);
    assert!(matches!(search.next(), AliasStep::Fetch(_)));
    search.fetched("nothing");
    assert!(matches!(search.next(), AliasStep::Fetch(_)));
    search.fetched(r#"<img src="screenshot4.jpg">"#);
    match search.next() {
        AliasStep::Copy(request) => {
            assert_eq!(request.target.to_text(), "pc/screen4.jpg");
            assert_eq!(request.candidate.to_text(), "pc/screenshot4.jpg");
            search.copied();
        }
        _ => panic!(),
    }
    assert!(matches!(search.next(), AliasStep::Finished));
    assert_eq!(search.created(), 1);
}

#[test]
fn alias_lookups_stop_after_three_lost_connections() {
    let mut selected = TextMap::new();
    let mut links = Vec::new();
    for page in ["a.html", "b.html", "c.html", "d.html"] {
        selected.insert(page, record("20200101000000", "http://example.com/", "text/html", "A"));
        links.push(MissingStaticAssetLink { source: path(page), target: path("screen1.gif") });
    }
    let requests = missing_static_asset_alias_requests(
        &site(&["screenshot1.gif"]),
        &selected,
        &TextMap::new(),
        &links,
    );
    assert_eq!(requests.len(), 4);
    let mut search = AliasSearch::new(requests);
    for _ in 0..3 {
        assert!(matches!(search.next(), AliasStep::LookUp(_)));
        search.lookup_failed(true);
    }
    assert!(matches!(search.next(), AliasStep::Finished));
}

#[test]
fn recovery_counts_what_became_of_each_file() {
    let mut recovery = StaticAssetRecovery::new(6);
    recovery.settle(AssetOutcome::Saved);
    recovery.settle(AssetOutcome::NotSaved);
    recovery.settle(AssetOutcome::NotFound { no_connection: true });
    recovery.settle(AssetOutcome::AlreadyThere);
    recovery.settle(AssetOutcome::NotFound { no_connection: true });
    assert_eq!(recovery.next(), Some(5));
    recovery.settle(AssetOutcome::NotFound { no_connection: true });
    assert_eq!(recovery.next(), None);
    assert_eq!((recovery.recovered, recovery.unavailable, recovery.deferred), (1, 1, 3));
    assert_eq!(still_unavailable(3, 1), 2);
    assert_eq!(still_unavailable(1, 3), 0);
}

#[test]
fn lookups_take_the_first_capture_within_the_limit() {
    let mut big = record("20200101000000", "http://example.com/a.zip", "application/zip", "A");
    big.length = Some(100);
    let mut unknown = record("20190101000000", "http://example.com/a.zip", "application/zip", "B");
    unknown.length = None;
    let mut lookup = RecordLookup::new();
    lookup.failed(true);
    assert!(lookup.is_deferred());
    assert_eq!(lookup_outcome(&lookup), Some(AssetOutcome::NotFound { no_connection: true }));
    assert!(lookup.answered(&vec![big, unknown], 50, false));
    assert_eq!(lookup.record.as_ref().unwrap().digest, "B");
    assert!(!lookup.is_deferred());
    assert_eq!(lookup_outcome(&lookup), None);
}

#[test]
fn searches_propose_captures_of_the_same_site() {
    let original = "http://smallrockets.com/";
    let current = record("20200101000000", original, "text/html", "A");
    let mut search = CaptureSearch::new(&current, &path("index.html"), true);
    match search.next() {
        SearchStep::LookUp(target) => assert_eq!(target, original),
        _ => panic!(),
    }
    search.found(vec![
        current.duplicate(),
        record("20190101000000", original, "text/html", "A"),
        record("20180101000000", original, "text/html", "B"),
        record("20170101000000", original, "text/html", "C"),
        record("20160101000000", original, "text/html", "D"),
    ]);
    let mut verdicts = Vec::new();
    let texts = [
        r#"<script>window.location = "/old";</script>"#,
        "The Blue Ribbon Foundation",
        "Small Rockets",
    ];
    for text in texts {
        match search.next() {
            SearchStep::Fetch(candidate) => {
                verdicts.push((candidate.digest.clone(), search.judge(&candidate, text)));
            }
            _ => panic!(),
        }
    }
    assert_eq!(
        verdicts,
        vec![
            ("B".to_owned(), Verdict::Unusable),
            ("C".to_owned(), Verdict::Foreign),
            ("D".to_owned(), Verdict::Usable),
        ]
    );
    assert!(matches!(search.next(), SearchStep::Exhausted));
}

#[test]
fn lost_captures_may_come_back_under_the_same_digest() {
    let original = "http://example.com/file.zip";
    let current = record("20200101000000", original, "application/zip", "A");
    let mut search = CaptureSearch::new(&current, &path("file.zip"), false);
    assert!(matches!(search.next(), SearchStep::LookUp(_)));
    search.found(vec![record("20190101000000", original, "application/zip", "A")]);
    match search.next() {
        SearchStep::Fetch(candidate) => {
            assert_eq!(search.judge(&candidate, "binary"), Verdict::Usable);
        }
        _ => panic!(),
    }
}

#[test]
fn captures_that_cannot_replace_a_page_count_as_seen() {
    let original = "http://example.com/about";
    let current = record("20200101000000", original, "text/html", "A");
    let mut search = CaptureSearch::new(&current, &path("about"), true);
    assert!(matches!(search.next(), SearchStep::LookUp(_)));
    search.found(vec![
        record("20190101000000", original, "image/gif", "B"),
        record("20180101000000", original, "text/html", "B"),
        record("20170101000000", original, "text/html", "C"),
    ]);
    match search.next() {
        SearchStep::Fetch(candidate) => assert_eq!(candidate.digest, "C"),
        _ => panic!(),
    }
}

#[test]
fn keys_tell_captures_apart() {
    let a = record("1", "2 x", "text/html", "A");
    let b = record("1 2", "x", "text/html", "A");
    assert_ne!(capture_key_of(&a), capture_key_of(&b));
    let c = record("20200101000000", "http://example.com:80/", "text/html", "A");
    let d = record("20200101000000", "http://example.com/", "text/html", "B");
    assert_eq!(capture_key_of(&c), capture_key_of(&d));
    assert_eq!(capture_key_of(&d), "14 20200101000000http://example.com/");
}

#[test]
fn the_last_request_moves_to_the_place_of_a_confirmed_one() {
    let requests = ["a", "b", "c", "d"]
        .iter()
        .map(|name| StaticAssetAliasRequest {
            source: path("/site/index.html"),
            target: path(&format!("/site/images/{name}.gif")),
            candidate: path(&format!("/site/images/{name}_on.gif")),
        })
        .collect();
    let (confirmed, left) = take_confirmed_requests(
        r#"<img src="images/a_on.gif"><img src="images/b_on.gif"><img src="images/d_on.gif">"#,
        &path("/site/index.html"),
        requests,
    );
    let names = |requests: &Vec<StaticAssetAliasRequest>| {
        requests.iter().map(|request| request.target.to_text()).collect::<Vec<_>>()
    };
    assert_eq!(
        names(&confirmed),
        vec!["/site/images/a.gif", "/site/images/d.gif", "/site/images/b.gif"]
    );
    assert_eq!(names(&left), vec!["/site/images/c.gif"]);
}

#[test]
fn alternate_captures_are_limited() {
    let source = record("20200101000000", "http://example.com/", "text/html", "A");
    let mut alternates = AlternateCaptures::new(&source, &path("index.html"));
    let mut records = vec![source.duplicate()];
    for i in 0..30 {
        records.push(record(
            &format!("20190101{i:06}"),
            "http://example.com/",
            "text/html",
            &format!("D{i}"),
        ));
    }
    alternates.add_all(&records);
    assert!(alternates.is_full());
    let found = alternates.into_records();
    assert_eq!(found.len(), MAX_ALTERNATE_PAGE_CAPTURE_CHECKS);
    assert_eq!(found[0].digest, "D0");
}

#[test]
fn filters_noise_and_plans_each_path_once() {
    let mapper = SiteMapper::new("example.com").unwrap();
    let records = vec![
        record("20200101000000", "http://example.com/about", "text/html", "A"),
        record("20200101000000", "http://example.com/forums/login.php", "text/html", "B"),
        record("20190101000000", "http://www.example.com/about", "text/html", "C"),
    ];
    let (kept, noise) = filter_archive_noise(records);
    assert_eq!(noise, 1);
    let known = mapper.records_to_paths(&kept).unwrap();
    let plan = plan_jobs(&known, &kept);
    assert_eq!(plan.duplicates, 1);
    assert_eq!(plan.jobs.len(), 1);
    assert_eq!(plan.jobs.len() + plan.duplicates, kept.len());
    assert_eq!(plan.jobs[0].local_path.to_text(), "about/index.html");
    assert_eq!(plan.jobs[0].record.digest, "A");
    assert!(plan.seen_paths.contains("about/index.html"));
}

#[test]
fn repairs_ask_for_every_primary_host() {
    let mapper = SiteMapper::new("example.com").unwrap();
    assert_eq!(
        recovery_cdx_targets(&mapper, MatchType::Host),
        vec!["example.com", "www.example.com"]
    );
    assert_eq!(recovery_cdx_targets(&mapper, MatchType::Domain), vec!["example.com"]);
}

#[test]
fn repairs_merge_what_the_queries_find() {
    let mut records = RecoveryRecords::new();
    let page = record("20200101000000", "http://example.com/a", "text/html", "A");
    records.found(vec![page.duplicate()]);
    records.found(vec![
        page,
        record("20200101000000", "http://example.com/forums/login.php", "text/html", "B"),
    ]);
    records.query_failed();
    assert_eq!(records.finish().unwrap().len(), 1);
    let mut nothing = RecoveryRecords::new();
    assert!(RecoveryRecords::new().finish().unwrap().is_empty());
    nothing.query_failed();
    assert_eq!(nothing.finish().err(), Some(NoRecoveryRecords));
}

#[test]
fn existing_files_are_skipped_unless_they_hold_errors() {
    assert_eq!(first_step(true, true, false, true, false), FirstStep::Cancelled);
    assert_eq!(first_step(false, true, false, true, true), FirstStep::Skip);
    assert_eq!(first_step(false, true, true, true, true), FirstStep::Fetch);
    assert_eq!(first_step(false, true, true, true, false), FirstStep::Skip);
    assert_eq!(first_step(false, true, false, false, false), FirstStep::Fetch);
    assert_eq!(first_step(false, false, false, true, false), FirstStep::Fetch);
    assert!(!may_write(true, false, true));
    assert!(may_write(true, true, true));
    assert!(may_write(false, false, true));
    assert!(may_write(true, false, false));
}

#[test]
fn outcomes_are_counted() {
    let mut report = DownloadReport::new(5, 0, path("public"));
    report.count(JobOutcome::Downloaded, true);
    report.count(JobOutcome::RetainedUnusable, false);
    report.count(JobOutcome::Unavailable, true);
    report.count(JobOutcome::Unavailable, false);
    report.count(JobOutcome::Skipped, false);
    report.count(JobOutcome::Cancelled, false);
    report.count(JobOutcome::Failed, false);
    assert_eq!((report.downloaded, report.extra_downloads, report.retained_unusable), (2, 1, 1));
    assert_eq!((report.unavailable_snapshots, report.linked_files_unavailable), (2, 1));
    assert_eq!((report.skipped, report.cancelled, report.failed), (1, 1, 1));
}

#[test]
fn documents_are_rewritten_and_searched() {
    let mapper = SiteMapper::new("example.com").unwrap();
    let mut known = TextMap::new();
    known.insert("http://example.com/about", path("about/index.html"));
    let page = record("20200101000000", "http://example.com/", "text/html", "A");
    let prepared = prepare_document(
        r#"<a href="/about">About</a><img src="http://downloads.example.com/a.gif">"#,
        &page,
        &path("index.html"),
        &known,
        &mapper,
    )
    .unwrap();
    assert!(prepared.content.contains(r#"href="about/index.html""#));
    assert_eq!(
        prepared.references,
        vec!["http://downloads.example.com/a.gif", "http://example.com/about"]
    );
    let style = record("20200101000000", "http://example.com/a.css", "text/css", "A");
    let prepared =
        prepare_document("a { background: url(/about) }", &style, &path("a.css"), &known, &mapper)
            .unwrap();
    assert_eq!(prepared.content, "a { background: url(about/index.html) }");
    let broken = record("20200101000000", "no url", "text/html", "A");
    assert_eq!(
        prepare_document("", &broken, &path("index.html"), &known, &mapper).err(),
        Some(PrepareError::InvalidOriginal)
    );
}

#[test]
fn linked_files_are_looked_up_once_each() {
    let mapper = SiteMapper::new("example.com").unwrap();
    let mut known = TextMap::new();
    known.insert("http://example.com/known.gif", path("known.gif"));
    let mut extra = ExtraDownloads::new(
        vec![
            "http://example.com/c.gif".to_owned(),
            "http://example.com/known.gif".to_owned(),
            "http://example.com/a.gif".to_owned(),
            "http://example.com/a.gif".to_owned(),
        ],
        known,
        TextSet::new(),
    );
    assert_eq!(extra.next().unwrap(), "http://example.com/a.gif");
    let mut lookup = RecordLookup::new();
    lookup.answered(
        &vec![record("20200101000000", "http://example.com/a.gif", "image/gif", "A")],
        u64::MAX,
        true,
    );
    extra.settle(lookup, &mapper).unwrap();
    assert_eq!(extra.next().unwrap(), "http://example.com/c.gif");
    let mut lookup = RecordLookup::new();
    lookup.answered(&Vec::new(), u64::MAX, true);
    extra.settle(lookup, &mapper).unwrap();
    assert_eq!(extra.next(), None);
    assert_eq!((extra.jobs.len(), extra.unavailable, extra.deferred), (1, 1, 0));
    assert_eq!(extra.known_paths.get("http://example.com/a.gif").unwrap().to_text(), "a.gif");
}

#[test]
fn linked_file_lookups_stop_after_three_lost_connections() {
    let mapper = SiteMapper::new("example.com").unwrap();
    let references = (0..5).map(|i| format!("http://example.com/{i}.gif")).collect();
    let mut extra = ExtraDownloads::new(references, TextMap::new(), TextSet::new());
    for _ in 0..3 {
        assert!(extra.next().is_some());
        let mut lookup = RecordLookup::new();
        lookup.failed(true);
        extra.settle(lookup, &mapper).unwrap();
    }
    assert_eq!(extra.next(), None);
    assert_eq!(extra.deferred, 5);
}

fn inputs() -> PhaseInputs {
    PhaseInputs {
        rewrite_links: true,
        extra_downloads: true,
        validate_links: true,
        files_cancelled: false,
        assets_deferred: false,
        cancelled: false,
    }
}

fn phases(next: fn(Option<Phase>, PhaseInputs) -> Phase, inputs: PhaseInputs) -> Vec<Phase> {
    let mut phases = vec![next(None, inputs)];
    while *phases.last().unwrap() != Phase::Finished && *phases.last().unwrap() != Phase::Stopped {
        phases.push(next(Some(*phases.last().unwrap()), inputs));
    }
    phases
}

#[test]
fn downloads_go_through_their_phases() {
    assert_eq!(
        phases(next_download_phase, inputs()),
        vec![
            Phase::LinkedFiles,
            Phase::TopicAliases,
            Phase::StaticAssets,
            Phase::AlternateAliases,
            Phase::LocalAliases,
            Phase::RemoveResources,
            Phase::RemoveDownloadLinks,
            Phase::RemoveLinks,
            Phase::Validate,
            Phase::Finished,
        ]
    );
    let plain = PhaseInputs { rewrite_links: false, ..inputs() };
    assert_eq!(phases(next_download_phase, plain), vec![Phase::Validate, Phase::Finished]);
    let deferred = PhaseInputs { assets_deferred: true, ..inputs() };
    assert!(!phases(next_download_phase, deferred).contains(&Phase::RemoveResources));
    let stopped = PhaseInputs { cancelled: true, ..inputs() };
    assert_eq!(*phases(next_download_phase, stopped).last().unwrap(), Phase::Stopped);
    assert!(!phases(next_download_phase, stopped).contains(&Phase::RemoveLinks));
}

#[test]
fn repairs_go_through_their_phases() {
    let small = PhaseInputs { extra_downloads: false, ..inputs() };
    assert_eq!(
        phases(next_repair_phase, small),
        vec![
            Phase::TopicAliases,
            Phase::LocalAliases,
            Phase::RemoveDownloadLinks,
            Phase::RemoveLinks,
            Phase::Validate,
            Phase::Finished,
        ]
    );
    let stopped = PhaseInputs { cancelled: true, ..inputs() };
    assert_eq!(
        phases(next_repair_phase, stopped),
        vec![Phase::TopicAliases, Phase::StaticAssets, Phase::Finished]
    );
}

#[test]
fn cancellations_stay() {
    let mut flag = CancellationFlag::new();
    assert!(!flag.is_cancelled());
    flag.cancel();
    flag.cancel();
    assert!(flag.is_cancelled());
}

#[test]
fn a_cancellation_reaches_all_who_share_the_flag() {
    let flag = std::sync::Arc::new(std::sync::Mutex::new(CancellationFlag::default()));
    let shared = flag.clone();
    assert!(!flag.lock().unwrap().is_cancelled());
    assert!(!shared.lock().unwrap().is_cancelled());
    flag.lock().unwrap().cancel();
    assert!(shared.lock().unwrap().is_cancelled());
    assert!(flag.lock().unwrap().is_cancelled());
}

#[test]
fn linked_files_have_to_fit() {
    let unknown = || {
        let mut record =
            record("20260911000000", "http://example.com/game.zip", "application/zip", "A");
        record.length = None;
        record
    };
    let mut fitting = unknown();
    fitting.length = Some(8);
    for (max_bytes, linked, found) in
        [(8, true, false), (u64::MAX, true, true), (8, false, true), (u64::MAX, false, true)]
    {
        let mut lookup = RecordLookup::new();
        assert_eq!(lookup.answered(&vec![unknown()], max_bytes, linked), found);
        assert!(may_take(&fitting, max_bytes, linked));
        assert!(!may_take(&fitting, 7, linked));
    }
}

#[test]
fn rounds_of_linked_files_ask_for_new_references_only() {
    let texts = |names: &[&str]| names.iter().map(|name| (*name).to_owned()).collect::<Vec<_>>();
    let mapper = SiteMapper::new("example.com").unwrap();
    let mut extra = ExtraDownloads::new(
        texts(&["http://example.com/a.html"]),
        TextMap::new(),
        TextSet::new(),
    );
    assert_eq!(extra.next().unwrap(), "http://example.com/a.html");
    let mut lookup = RecordLookup::new();
    lookup.answered(
        &vec![record("20200101000000", "http://example.com/a.html", "text/html", "A")],
        u64::MAX,
        true,
    );
    extra.settle(lookup, &mapper).unwrap();
    assert_eq!(extra.next(), None);
    assert_eq!(extra.jobs.len(), 1);

    assert!(extra.next_round(texts(&[
        "http://example.com/c.css",
        "http://example.com/a.html",
        "http://example.com/b.gif",
        "http://example.com/c.css",
    ])));
    assert!(extra.jobs.is_empty());
    for expected in ["http://example.com/b.gif", "http://example.com/c.css"] {
        assert_eq!(extra.next().unwrap(), expected);
        extra.settle(RecordLookup::new(), &mapper).unwrap();
    }
    assert_eq!(extra.next(), None);
    assert_eq!(extra.unavailable, 2);
    assert!(!extra.next_round(texts(&["http://example.com/b.gif", "http://example.com/a.html"])));
    assert_eq!(extra.next(), None);
    assert!(!extra.next_round(Vec::new()));
}

#[test]
fn lost_and_unusable_captures_are_replaced() {
    let usable = FetchOutcome::Got { unusable: false };
    let unusable = FetchOutcome::Got { unusable: true };
    for (fetched, search, expected) in [
        (usable, SearchOutcome::NotAsked, CaptureChoice::Selected),
        (unusable, SearchOutcome::NotAsked, CaptureChoice::Search { seen: true }),
        (unusable, SearchOutcome::Found, CaptureChoice::Other),
        (unusable, SearchOutcome::Nothing, CaptureChoice::Selected),
        (unusable, SearchOutcome::Failed, CaptureChoice::Selected),
        (FetchOutcome::Lost, SearchOutcome::NotAsked, CaptureChoice::Search { seen: false }),
        (FetchOutcome::Lost, SearchOutcome::Found, CaptureChoice::Other),
        (FetchOutcome::Lost, SearchOutcome::Nothing, CaptureChoice::FetchError),
        (FetchOutcome::Lost, SearchOutcome::Failed, CaptureChoice::SearchError),
        (FetchOutcome::Failed, SearchOutcome::NotAsked, CaptureChoice::FetchError),
    ] {
        assert_eq!(choose_capture(fetched, search), expected);
    }
    let page = record("20200101000000", "http://example.com/", "text/html", "A");
    let image = record("20200101000000", "http://example.com/a.gif", "image/gif", "B");
    let redirect = r#"<script>window.location = "/old";</script>"#;
    assert!(is_unusable_capture(&page, &path("index.html"), redirect));
    assert!(!is_unusable_capture(&page, &path("index.html"), "<p>Content</p>"));
    assert!(!is_unusable_capture(&image, &path("a.gif"), redirect));
}

#[test]
fn copied_style_sheets_confirm_further_copies() {
    let source = |name: &str, text: &str| SourceFile { path: path(name), text: text.to_owned() };
    let links = missing_static_asset_links(
        &path("/site"),
        &vec![
            missing("a/page.html", "b/screen1.css"),
            missing("b/page.html", "b/screen2.gif"),
        ],
    );
    let copies = create_missing_static_asset_aliases(
        site(&["b/screenshot1.css", "b/screenshot2.gif", "a/page.html", "b/page.html"]),
        vec![
            source("a/page.html", "<link href='../b/screenshot1.css' rel='stylesheet'>"),
            source("b/page.html", "<img src='screen2.gif'>"),
            source("b/screenshot1.css", "a { b: url(screenshot2.gif) }"),
        ],
        &links,
    );
    assert_eq!(copies.len(), 2);
    assert_eq!(copies[1].target.to_text(), "/site/b/screen2.gif");
}

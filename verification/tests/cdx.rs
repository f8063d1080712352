use webarchive_downloader_rust::cdx::{
    all_records, keep_existing, latest_records, parse_cdx_line, sort_records_for_strategy,
    CdxLineError, CdxQuery, CdxRecord, CdxRetryPolicy, InvalidArchiveRoot, LatestRecords,
    LineBuffer, MatchType, SnapshotStrategy,
};
use webarchive_downloader_rust::cdx_requests::{
    is_cdx_connectivity_error, is_retryable_cdx_status, CdxCooldown, CdxOutcome, CdxRequest,
    RequestFault, CDX_THROTTLE_DECAY_MILLIS, FIRST_CONNECTIVITY_NOTICE_SECONDS,
};
use webarchive_downloader_rust::retry::{
    format_anyhow_error_chain, format_error_chain, format_retry_delay, format_retry_elapsed,
    format_suppressed_retries, retry_after_delay, retry_after_seconds, should_log_retry_attempt,
    should_try_ssh_after_status, NextStep, FIRST_VERBOSE_RETRY_ATTEMPTS, MAX_WAYBACK_RETRY_DELAY_SECONDS,
    RETRY_LOG_EVERY_ATTEMPTS,
};

fn record(timestamp: &str, original: &str) -> CdxRecord {
    CdxRecord {
        timestamp: timestamp.to_owned(),
        original: original.to_owned(),
        mimetype: "text/html".to_owned(),
        status_code: 200,
        digest: "digest".to_owned(),
        length: None,
    }
}

#[test]
fn parses_text_cdx_line() {
    let record =
        parse_cdx_line("20200102030405 http://example.com/ text/html 200 ABCDEFG 1234").unwrap();

    assert_eq!(record.timestamp, "20200102030405");
    assert_eq!(record.original, "http://example.com/");
    assert_eq!(record.mimetype, "text/html");
    assert_eq!(record.status_code, 200);
    assert_eq!(record.digest, "ABCDEFG");
    assert_eq!(record.length, Some(1234));
}

#[test]
fn reads_lines_without_a_length() {
    let record = parse_cdx_line("20200102030405 http://example.com/ text/html 200 ABC -").unwrap();
    assert_eq!(record.length, None);
    let record = parse_cdx_line("20200102030405 http://example.com/ text/html 200 ABC").unwrap();
    assert_eq!(record.length, None);
}

#[test]
fn names_what_a_line_lacks() {
    for (line, error) in [
        ("", CdxLineError::MissingTimestamp),
        ("20200102030405", CdxLineError::MissingOriginal),
        ("20200102030405 http://example.com/", CdxLineError::MissingMimetype),
        ("20200102030405 http://example.com/ text/html", CdxLineError::MissingStatusCode),
        ("20200102030405 http://example.com/ text/html abc", CdxLineError::MissingDigest),
        ("20200102030405 http://example.com/ text/html abc digest", CdxLineError::InvalidStatusCode),
        ("20200102030405 http://example.com/ text/html 70000 digest", CdxLineError::InvalidStatusCode),
    ] {
        assert_eq!(parse_cdx_line(line).err(), Some(error), "{line}");
    }
}

#[test]
fn builds_cdx_search_url() {
    let query = CdxQuery::new(
        "example.com".to_owned(),
        MatchType::Domain,
        SnapshotStrategy::Latest,
        "https://web.archive.org".to_owned(),
    );

    let url = query.search_url().unwrap();
    assert!(url.starts_with("https://web.archive.org/cdx/search/cdx?"));
    assert!(url.contains("url=example.com"));
    assert!(url.contains("matchType=domain"));
    assert!(url.contains("fl=timestamp%2Coriginal%2Cmimetype%2Cstatuscode%2Cdigest%2Clength"));
    assert!(url.contains("filter=statuscode%3A200"));
}

#[test]
fn search_urls_carry_the_optional_bounds() {
    let mut query = CdxQuery::new(
        "example.com".to_owned(),
        MatchType::Exact,
        SnapshotStrategy::Earliest,
        "https://web.archive.org".to_owned(),
    );
    query.from = Some("2001".to_owned());
    query.to = Some("2014".to_owned());
    query.limit = Some(20);
    let url = query.search_url().unwrap();
    assert!(url.contains("from=2001"));
    assert!(url.contains("to=2014"));
    assert!(url.contains("limit=20"));
}

#[test]
fn rejects_an_archive_root_that_is_no_url() {
    let query = CdxQuery::new(
        "example.com".to_owned(),
        MatchType::Host,
        SnapshotStrategy::Latest,
        "web.archive.org".to_owned(),
    );
    assert_eq!(query.search_url(), Err(InvalidArchiveRoot));
}

#[test]
fn match_types_have_their_cdx_names() {
    assert_eq!(MatchType::Exact.as_cdx(), "exact");
    assert_eq!(MatchType::Prefix.as_cdx(), "prefix");
    assert_eq!(MatchType::Host.as_cdx(), "host");
    assert_eq!(MatchType::Domain.as_cdx(), "domain");
}

#[test]
fn uses_retry_after_seconds_for_cdx_429_delay() {
    assert_eq!(retry_after_delay(retry_after_seconds("42"), 0), 42);
}

#[test]
fn caps_retry_after_seconds_for_cdx_429_delay() {
    assert_eq!(
        retry_after_delay(retry_after_seconds("999999"), 0),
        MAX_WAYBACK_RETRY_DELAY_SECONDS
    );
}

#[test]
fn ignores_retry_after_values_that_are_no_numbers() {
    assert_eq!(retry_after_seconds("Wed, 21 Oct 2015 07:28:00 GMT"), None);
    assert_eq!(retry_after_delay(retry_after_seconds("soon"), 1), 10);
    assert_eq!(retry_after_delay(Some(0), 0), 1);
}

#[test]
fn falls_back_to_exponential_cdx_429_delay() {
    assert_eq!(retry_after_delay(None, 0), 5);
    assert_eq!(retry_after_delay(None, 2), 20);
    assert_eq!(retry_after_delay(None, 5), 160);
    assert_eq!(retry_after_delay(None, 7), 640);
    assert_eq!(retry_after_delay(None, 10), 5120);
    assert_eq!(retry_after_delay(None, 11), 10240);
    assert_eq!(retry_after_delay(None, 14), 81920);
    assert_eq!(retry_after_delay(None, 100), MAX_WAYBACK_RETRY_DELAY_SECONDS);
}

#[test]
fn formats_retry_elapsed_time() {
    assert_eq!(format_retry_elapsed(7), "7s");
    assert_eq!(format_retry_elapsed(67), "1m 7s");
    assert_eq!(format_retry_elapsed(3667), "1h 1m 7s");
}

#[test]
fn formats_retry_delays() {
    assert_eq!(format_retry_delay(1), "1 second");
    assert_eq!(format_retry_delay(42), "42 seconds");
    assert_eq!(format_retry_delay(120), "120 seconds (2 minutes)");
    assert_eq!(format_retry_delay(3600), "3600 seconds (1 hour)");
    assert_eq!(format_retry_delay(5400), "5400 seconds (around 1h 30m)");
}

#[test]
fn error_chains_leave_repeated_causes_out() {
    let causes = vec!["request failed".to_owned(), "timed out".to_owned(), "timed".to_owned()];
    assert_eq!(format_error_chain(&causes), "request failed: timed out");
    assert_eq!(format_anyhow_error_chain(&causes), "request failed: timed out");
    assert_eq!(format_error_chain(&Vec::new()), "");
    assert_eq!(format_anyhow_error_chain(&Vec::new()), "");
}

#[test]
fn error_chains_with_an_empty_message_differ() {
    let causes = vec![String::new(), "timed out".to_owned()];
    assert_eq!(format_error_chain(&causes), ": timed out");
    assert_eq!(format_anyhow_error_chain(&causes), "timed out");
}

#[test]
fn shared_cdx_cooldown_extends_but_does_not_shorten() {
    let mut cooldown = CdxCooldown::new();
    cooldown.remember_cdx_cooldown(30, 1000);
    let first_deadline = cooldown.next_allowed_at.unwrap();

    cooldown.remember_cdx_cooldown(5, 1000);
    assert_eq!(cooldown.next_allowed_at, Some(first_deadline));

    cooldown.remember_cdx_cooldown(60, 1000);
    assert!(cooldown.next_allowed_at.unwrap() > first_deadline);
}

#[test]
fn shared_cdx_cooldown_retry_delay_uses_existing_longer_deadline() {
    let mut cooldown = CdxCooldown::new();
    assert_eq!(cooldown.remember_cdx_cooldown(60, 1000).remaining_millis, 60_000);
    let first_deadline = cooldown.next_allowed_at.unwrap();
    let retry_delay = cooldown.remember_cdx_cooldown(5, 1500).remaining_millis;

    assert!(1500 + retry_delay >= first_deadline);
}

#[test]
fn shared_cdx_cooldown_escalates_across_intermittent_successes() {
    let mut cooldown = CdxCooldown::new();
    let now: u64 = 10_000_000;

    cooldown.remember_cdx_cooldown(5, now);
    assert_eq!(cooldown.throttle_score, 1);
    let first_remaining = cooldown.remaining(now).unwrap();
    assert!(first_remaining <= 5_000);

    cooldown.remember_cdx_success(now + 1);
    assert_eq!(cooldown.throttle_score, 1);

    cooldown.remember_cdx_cooldown(5, now + 2);
    assert_eq!(cooldown.throttle_score, 2);
    let second_remaining = cooldown.remaining(now + 2).unwrap();
    assert!(second_remaining > first_remaining);

    cooldown.remember_cdx_success(now + 3);
    let success_at = now + 3 - CDX_THROTTLE_DECAY_MILLIS - 1000;
    cooldown.last_success_at = Some(success_at);
    cooldown.last_throttle_at = Some(success_at - 1000);
    cooldown.remember_cdx_success(now + 3);
    assert_eq!(cooldown.throttle_score, 0);
}

#[test]
fn shared_cdx_cooldown_does_not_decay_just_because_backoff_elapsed() {
    let mut cooldown = CdxCooldown::new();
    let now: u64 = 10_000_000;

    for _ in 0..8 {
        cooldown.remember_cdx_cooldown(5, now);
    }
    assert_eq!(cooldown.throttle_score, 8);

    cooldown.last_throttle_at = Some(now - CDX_THROTTLE_DECAY_MILLIS - 1000);
    let retry_delay = cooldown.remember_cdx_cooldown(5, now).remaining_millis;

    assert!(retry_delay >= 1_280_000);
}

#[test]
fn logs_first_retry_attempts_then_periodically() {
    assert!(should_log_retry_attempt(1));
    assert!(should_log_retry_attempt(FIRST_VERBOSE_RETRY_ATTEMPTS));
    assert!(!should_log_retry_attempt(FIRST_VERBOSE_RETRY_ATTEMPTS + 1));
    assert!(should_log_retry_attempt(RETRY_LOG_EVERY_ATTEMPTS));
    assert!(!should_log_retry_attempt(RETRY_LOG_EVERY_ATTEMPTS + 1));
}

#[test]
fn formats_suppressed_retry_count() {
    assert_eq!(format_suppressed_retries(0), "");
    assert_eq!(format_suppressed_retries(1), " (1 similar retry message suppressed)");
    assert_eq!(format_suppressed_retries(9), " (9 similar retry messages suppressed)");
}

#[test]
fn retries_primary_cdx_requests_indefinitely() {
    let policy = CdxRetryPolicy::primary();

    assert!(policy.should_retry_after_attempt(0));
    assert!(policy.should_retry_after_attempt(1_000_000));
}

#[test]
fn recovery_cdx_requests_are_unbounded() {
    let policy = CdxRetryPolicy::recovery();

    assert!(policy.should_retry_after_attempt(0));
    assert!(policy.should_retry_after_attempt(1_000_000));
}

#[test]
fn limited_policy_stops_after_configured_attempts() {
    let policy = CdxRetryPolicy::limited(3);

    assert!(policy.should_retry_after_attempt(0));
    assert!(policy.should_retry_after_attempt(1));
    assert!(!policy.should_retry_after_attempt(2));
}

#[test]
fn retries_only_transient_cdx_statuses() {
    assert!(is_retryable_cdx_status(429));
    assert!(is_retryable_cdx_status(502));
    assert!(!is_retryable_cdx_status(404));
    assert!(!is_retryable_cdx_status(403));
}

#[test]
fn requests_wait_before_they_switch_on_server_errors() {
    let mut cooldown = CdxCooldown::new();
    let mut request = CdxRequest::new(CdxRetryPolicy::primary());
    let bad_gateway = CdxOutcome::Responded { status: 502, retry_after: None };
    assert_eq!(request.next_step(bad_gateway, false), NextStep::Wait);
    let first = request.wait(&mut cooldown, bad_gateway, 0, 0);
    assert_eq!(first.millis, 5000);
    assert_eq!(first.note.number, 1);
    assert_eq!(request.next_step(bad_gateway, false), NextStep::Wait);
    request.wait(&mut cooldown, bad_gateway, 5000, 5);
    assert_eq!(request.next_step(bad_gateway, false), NextStep::SwitchOrWait);
    request.switched();
    assert_eq!(request.counter.attempt, 0);
}

#[test]
fn requests_end_with_the_answers_that_waiting_cannot_change() {
    let request = CdxRequest::new(CdxRetryPolicy::primary());
    for (status, step) in [
        (200, NextStep::Accept),
        (404, NextStep::GiveUp),
        (403, NextStep::SwitchOrGiveUp),
        (429, NextStep::SwitchOrWait),
    ] {
        let outcome = CdxOutcome::Responded { status, retry_after: None };
        assert_eq!(request.next_step(outcome, false), step, "{status}");
    }
    let limited = CdxRequest::new(CdxRetryPolicy::limited(1));
    assert_eq!(
        limited.next_step(CdxOutcome::RequestFailed { connectivity: true }, false),
        NextStep::GiveUp
    );
    assert!(should_try_ssh_after_status(403, 0, true));
}

#[test]
fn long_connection_failures_are_noticed() {
    let mut cooldown = CdxCooldown::new();
    let mut request = CdxRequest::new(CdxRetryPolicy::primary());
    let outcome = CdxOutcome::RequestFailed { connectivity: true };
    assert!(!request.wait(&mut cooldown, outcome, 0, 0).notice);
    assert!(request.wait(&mut cooldown, outcome, 0, FIRST_CONNECTIVITY_NOTICE_SECONDS).notice);
    assert!(!request.wait(&mut cooldown, outcome, 0, FIRST_CONNECTIVITY_NOTICE_SECONDS + 1).notice);
}

#[test]
fn connectivity_errors_are_found_among_the_causes() {
    let plain = RequestFault { connect: false, timeout: false, body: false, status: Some(404) };
    let timeout = RequestFault { connect: false, timeout: true, body: false, status: None };
    assert!(!is_cdx_connectivity_error(&vec![plain]));
    assert!(is_cdx_connectivity_error(&vec![plain, timeout]));
}

#[test]
fn keeps_the_best_capture_of_each_url() {
    let body = b"20200101000000 http://example.com/b text/html 200 A 1\n\
20200301000000 http://example.com/a text/html 200 B 1\n\
20200201000000 http://example.com/a#x text/html 200 C 1\n";
    let latest = latest_records(body, SnapshotStrategy::Latest).unwrap();
    assert_eq!(
        latest.iter().map(|r| (r.original.as_str(), r.digest.as_str())).collect::<Vec<_>>(),
        vec![("http://example.com/a", "B"), ("http://example.com/b", "A")]
    );
    let earliest = latest_records(body, SnapshotStrategy::Earliest).unwrap();
    assert_eq!(earliest.iter().map(|r| r.digest.as_str()).collect::<Vec<_>>(), vec!["C", "A"]);
    let all = all_records(body, SnapshotStrategy::Latest).unwrap();
    assert_eq!(all.iter().map(|r| r.digest.as_str()).collect::<Vec<_>>(), vec!["B", "C", "A"]);
    assert_eq!(
        latest_records(b"20200101000000\n", SnapshotStrategy::Latest).err(),
        Some(CdxLineError::MissingOriginal)
    );
}

#[test]
fn lines_do_not_depend_on_how_the_bytes_arrive() {
    let mut buffer = LineBuffer::new();
    assert!(buffer.push(b"20200101000000 http://exa").is_empty());
    let lines = buffer.push(b"mple.com/ text/html 200 A 1\nrest");
    assert_eq!(lines, vec![b"20200101000000 http://example.com/ text/html 200 A 1\n".to_vec()]);
    assert_eq!(buffer.pending, b"rest".to_vec());
    let mut latest = LatestRecords::new(SnapshotStrategy::Latest);
    latest.ingest_cdx_line(&lines[0]).unwrap();
    latest.ingest_cdx_line(b"").unwrap();
    assert_eq!(latest.into_records().len(), 1);
}

#[test]
fn orders_captures_for_the_strategy() {
    let old = record("20010101000000", "http://example.com/");
    let new = record("20200101000000", "http://example.com/");
    assert!(keep_existing(&new, &old, SnapshotStrategy::Latest));
    assert!(!keep_existing(&new, &old, SnapshotStrategy::Earliest));
    let sorted =
        sort_records_for_strategy(vec![old.duplicate(), new.duplicate()], SnapshotStrategy::Latest);
    assert_eq!(sorted[0].timestamp, "20200101000000");
    let sorted = sort_records_for_strategy(vec![new, old], SnapshotStrategy::Earliest);
    assert_eq!(sorted[0].timestamp, "20010101000000");
}

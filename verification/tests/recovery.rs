use webarchive_downloader_rust::cdx::CdxRecord;
use webarchive_downloader_rust::path::LocalPath;
use webarchive_downloader_rust::recovery::{
    frame_entry, mend_journal, split_journal, CaptureEvent, RecoveryState,
};

fn event(outcome: &str, references: &[&str]) -> CaptureEvent {
    CaptureEvent {
        record: CdxRecord {
            timestamp: "20260917000000".to_owned(),
            original: "http://example.com/".to_owned(),
            mimetype: "text/html".to_owned(),
            status_code: 200,
            digest: "A".to_owned(),
            length: None,
        },
        local_path: LocalPath::parse("index.html"),
        outcome: outcome.to_owned(),
        references: references.iter().map(|reference| (*reference).to_owned()).collect(),
        error: None,
    }
}

/// A failed retry or interrupted journal tail must not erase original references.
#[test]
fn reload_keeps_saved_references_after_failed_retry_and_partial_write() {
    let saved = ["http://example.com/topic.php?t=7"];
    let page = LocalPath::parse("index.html");
    let (mut state, damaged) = RecoveryState::open(Vec::new());
    assert_eq!(damaged, 0);
    state.record(event("downloaded", &saved));
    state.record(event("failed", &[]));
    assert_eq!(state.references(&page), saved);

    let mut journal = frame_entry(b"{\"first\"}".to_vec());
    journal.extend(frame_entry(b"{\"second\"}".to_vec()));
    journal.extend(b"{\"record\":");
    let lines = split_journal(&journal);
    assert_eq!(lines.len(), 3);
    let (mut state, damaged) = RecoveryState::open(vec![
        Some(event("downloaded", &saved)),
        Some(event("failed", &[])),
        None,
    ]);
    assert_eq!(damaged, 1);
    assert_eq!(state.references(&page), saved);

    journal.extend(mend_journal(&journal));
    journal.extend(frame_entry(b"{\"third\"}".to_vec()));
    let lines = split_journal(&journal);
    assert_eq!(lines.last().unwrap(), &b"{\"third\"}".to_vec());
    state.record(event("downloaded", &saved));
    assert_eq!(state.references(&page), saved);
    assert_eq!(state.original_for_path(&page), Some("http://example.com/".to_owned()));
    assert_eq!(state.original_for_path(&LocalPath::parse("other.html")), None);
}

/// Empty lookup results are retried on the next run, not remembered forever.
#[test]
fn lookup_cache_does_not_survive_restart() {
    let (mut state, _) = RecoveryState::open(Vec::new());
    state.remember_lookup("query", Vec::new());
    assert!(state.lookup("query").unwrap().is_empty());
    assert!(RecoveryState::open(Vec::new()).0.lookup("query").is_none());
}

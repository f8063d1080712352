use webarchive_downloader_rust::cdx::CdxRecord;
use webarchive_downloader_rust::cli::{
    count_defects, date_of_day, download_report_lines, exit_code, extra_download_max_bytes,
    finish_line,
    format_elapsed_time, format_record, keeps_existing_files, output_summary_lines,
    repair_report_lines, stopped_report_lines, validation_report_lines, BYTES_PER_MIB,
};
use webarchive_downloader_rust::downloader::{DownloadReport, RepairReport};
use webarchive_downloader_rust::link_validation::{
    LinkValidationReport, MissingImageSource, MissingLocalLink,
};
use webarchive_downloader_rust::output_summary::{FileSummary, OutputSummary};
use webarchive_downloader_rust::path::LocalPath;

#[test]
fn extra_downloads_are_uncapped_by_default() {
    assert_eq!(extra_download_max_bytes(None), Some(u64::MAX));
}

#[test]
fn zero_extra_download_size_disables_extra_downloads() {
    assert_eq!(extra_download_max_bytes(Some(0)), None);
}

#[test]
fn explicit_extra_download_size_sets_byte_cap() {
    assert_eq!(extra_download_max_bytes(Some(128)), Some(128 * BYTES_PER_MIB));
}

#[test]
fn huge_extra_download_sizes_are_capped() {
    assert_eq!(extra_download_max_bytes(Some(u64::MAX)), Some(u64::MAX));
}

#[test]
fn formats_elapsed_time() {
    assert_eq!(format_elapsed_time(42), "42 ms");
    assert_eq!(format_elapsed_time(9_000), "9s");
    assert_eq!(format_elapsed_time(125_000), "2m 5s");
    assert_eq!(format_elapsed_time(3_661_000), "1h 1m 1s");
}

#[test]
fn exit_codes_tell_cancellations_and_defects() {
    assert_eq!(exit_code(true, true, 3), 130);
    assert_eq!(exit_code(false, true, count_defects(0, 0, 1)), 2);
    assert_eq!(exit_code(false, false, count_defects(1, 1, 1)), 0);
    assert_eq!(exit_code(false, true, count_defects(0, 0, 0)), 0);
    assert_eq!(count_defects(usize::MAX, 1, 1), usize::MAX);
}

#[test]
fn existing_files_are_kept_unless_overwritten() {
    assert!(keeps_existing_files(false, false));
    assert!(!keeps_existing_files(true, false));
    assert!(keeps_existing_files(true, true));
}

#[test]
fn reports_count_line_by_line() {
    let mut report = DownloadReport::new(7, 2, LocalPath::parse("public"));
    report.retained_unusable = 1;
    report.downloaded = 2;
    let lines = download_report_lines(&report);
    assert_eq!(lines[0], "done:");
    assert_eq!(lines[1], "  discovered: 7");
    assert!(lines.contains(&"  downloaded: 2".to_owned()));
    assert!(lines.contains(&"  retained unusable captures: 1".to_owned()));
    assert!(lines.contains(&"  skipped: 2".to_owned()));
    assert_eq!(lines.last().unwrap(), "  output: public");
    let lines = stopped_report_lines(&report);
    assert_eq!(lines[0], "stopped:");
    assert!(lines.contains(&"  cancelled: 0".to_owned()));
    let mut report = RepairReport::new(LocalPath::parse("public"));
    report.unique_missing_targets = 3;
    let lines = repair_report_lines(&report);
    assert_eq!(lines[0], "repair done:");
    assert!(lines.contains(&"  unique missing targets: 3".to_owned()));
}

#[test]
fn listings_show_time_type_and_url() {
    let record = CdxRecord {
        timestamp: "20200102030405".to_owned(),
        original: "http://example.com/".to_owned(),
        mimetype: "text/html".to_owned(),
        status_code: 200,
        digest: "digest".to_owned(),
        length: None,
    };
    assert_eq!(format_record(&record), "20200102030405 text/html http://example.com/");
}

#[test]
fn summaries_align_sizes() {
    let empty = OutputSummary { total_bytes: 0, biggest_files: Vec::new() };
    assert_eq!(
        output_summary_lines(&empty),
        vec!["output size: 0 B (0 bytes)", "10 biggest files: none"]
    );
    let summary = OutputSummary {
        total_bytes: 1536,
        biggest_files: vec![FileSummary { path: LocalPath::parse("a/b.gif"), bytes: 1536 }],
    };
    assert_eq!(
        output_summary_lines(&summary),
        vec![
            "output size: 1.50 KiB (1536 bytes)".to_owned(),
            "10 biggest files:".to_owned(),
            format!("  {:>10}  {}", "1.50 KiB", "a/b.gif"),
        ]
    );
}

#[test]
fn validations_list_the_first_defects() {
    let mut missing = Vec::new();
    for i in 0..21 {
        missing.push(MissingLocalLink {
            source: LocalPath::parse("/site/index.html"),
            href: format!("m{i}.html"),
            target: LocalPath::parse("/site/m.html"),
        });
    }
    let report = LinkValidationReport {
        checked: 30,
        missing,
        missing_image_sources: vec![MissingImageSource {
            source: LocalPath::parse("/elsewhere/a.html"),
            descriptor: "alt=\"x\"".to_owned(),
        }],
    };
    let lines = validation_report_lines(
        &LocalPath::parse("/site"),
        &report,
        &vec![LocalPath::parse("/site/topic.html")],
    );
    assert_eq!(
        lines[0],
        "validated 30 local links; missing 21; unique missing targets 1; images without source 1"
    );
    assert_eq!(lines[1], "missing local link: index.html -> m0.html (m.html)");
    assert_eq!(lines[20], "missing local link: index.html -> m19.html (m.html)");
    assert_eq!(lines[21], "missing local links omitted: 1");
    assert_eq!(lines[22], "image without source: /elsewhere/a.html (alt=\"x\")");
    assert_eq!(lines[23], "unusable HTML files: 1");
    assert_eq!(lines[24], "unusable HTML file: topic.html");
    assert_eq!(lines.len(), 25);
}

#[test]
fn finish_lines_hold_the_date() {
    for (seconds, expected) in [
        (0, "Finished at 1970-01-01 00:00:00 UTC"),
        (951_782_399, "Finished at 2000-02-28 23:59:59 UTC"),
        (951_782_400, "Finished at 2000-02-29 00:00:00 UTC"),
        (1_017_650_797, "Finished at 2002-04-01 08:46:37 UTC"),
        (4_107_542_400, "Finished at 2100-03-01 00:00:00 UTC"),
    ] {
        assert_eq!(finish_line(seconds), expected);
    }
    assert_eq!(date_of_day(364), (1970, 12, 31));
    assert_eq!(date_of_day(365), (1971, 1, 1));
}

#[test]
fn reports_start_with_nothing_counted() {
    let report = DownloadReport::default();
    assert_eq!((report.discovered, report.skipped, report.failed), (0, 0, 0));
    assert_eq!(report.clone().output_dir, LocalPath::default());
    assert_eq!(RepairReport::default().unavailable_static_assets, 0);
    assert_eq!(LinkValidationReport::default().checked, 0);
    assert_eq!(LinkValidationReport::default(), LinkValidationReport::default());
}

use webarchive_downloader_rust::output_summary::{
    format_bytes, summarize_output_dir, FileSummary, OutputSummary,
};
use webarchive_downloader_rust::path::LocalPath;

fn file(path: &str, bytes: u64) -> FileSummary {
    FileSummary { path: LocalPath::parse(path), bytes }
}

fn biggest(summary: &OutputSummary) -> Vec<(String, u64)> {
    summary.biggest_files.iter().map(|file| (file.path.to_text(), file.bytes)).collect()
}

#[test]
fn formats_bytes_for_human_output() {
    assert_eq!(format_bytes(0), "0 B");
    assert_eq!(format_bytes(999), "999 B");
    assert_eq!(format_bytes(1024), "1.00 KiB");
    assert_eq!(format_bytes(10 * 1024), "10.0 KiB");
    assert_eq!(format_bytes(5 * 1024 * 1024), "5.00 MiB");
}

#[test]
fn rounds_sizes_as_decimal_formatting_does() {
    for bytes in [
        1025,
        1536,
        10_239,
        10_240,
        10_291,
        1_048_575,
        1_048_576,
        123_456_789,
        10_737_418_240,
        u64::MAX,
        (1 << 53) + 1,
    ] {
        let units = ["KiB", "MiB", "GiB", "TiB"];
        let mut value = bytes as f64 / 1024.0;
        let mut unit = 0;
        while value >= 1024.0 && unit + 1 < units.len() {
            value /= 1024.0;
            unit += 1;
        }
        let expected = if value >= 10.0 {
            format!("{value:.1} {}", units[unit])
        } else {
            format!("{value:.2} {}", units[unit])
        };
        assert_eq!(format_bytes(bytes), expected);
    }
}

#[test]
fn summarizes_total_size_and_biggest_files() {
    let root = LocalPath::parse("/site");
    let files = vec![
        file("/site/small.txt", 1),
        file("/site/medium.bin", 4),
        file("/site/nested/large.dat", 8),
    ];

    let summary = summarize_output_dir(&root, &files, 2);

    assert_eq!(summary.total_bytes, 13);
    assert_eq!(
        biggest(&summary),
        vec![("nested/large.dat".to_owned(), 8), ("medium.bin".to_owned(), 4)]
    );
}

#[test]
fn keeps_biggest_files_in_stable_path_order_for_ties() {
    let root = LocalPath::parse("/site");
    let summary =
        summarize_output_dir(&root, &vec![file("/site/b.bin", 4), file("/site/a.bin", 4)], 10);

    assert_eq!(biggest(&summary), vec![("a.bin".to_owned(), 4), ("b.bin".to_owned(), 4)]);
}

#[test]
fn total_sizes_are_capped() {
    let root = LocalPath::parse("/site");
    let summary =
        summarize_output_dir(&root, &vec![file("/site/a", u64::MAX), file("/site/b", 1)], 0);
    assert_eq!(summary.total_bytes, u64::MAX);
    assert!(summary.biggest_files.is_empty());
}

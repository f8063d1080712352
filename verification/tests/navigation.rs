use webarchive_downloader_rust::cli::navigation_report_line;
use webarchive_downloader_rust::link_validation::{SiteFiles, SourceFile};
use webarchive_downloader_rust::navigation::{is_session_query, repair_local_navigation};
use webarchive_downloader_rust::path::LocalPath;

fn files(names: &[&str]) -> SiteFiles {
    let paths = names.iter().map(|name| LocalPath::parse(&format!("/site/{name}"))).collect();
    SiteFiles::new(&LocalPath::parse("/site"), &paths)
}

fn repair(page: &str, text: &str, filled: &[&str], empty: &[&str]) -> Option<(String, usize)> {
    let mut all = filled.to_vec();
    all.extend_from_slice(empty);
    all.push(page);
    let mut with_page = filled.to_vec();
    with_page.push(page);
    let source =
        SourceFile { path: LocalPath::parse(&format!("/site/{page}")), text: text.to_owned() };
    repair_local_navigation(&files(&all), &files(&with_page), &source).unwrap()
}

/// Repair needs only existing files, preserves anchors, and is idempotent.
#[test]
fn repairs_existing_session_destinations_without_network() {
    let original = "<p>caf\u{e9}</p><a href='./faq.php?sid=abc#help'>FAQ</a><area href='/forums/faq.php?PHPSESSID=def'><a href='faq.php'>Again</a>";
    let (text, count) =
        repair("forums/topic.html", original, &["forums/faq.php.html"], &[]).unwrap();
    assert_eq!(count, 3);
    assert!(text.starts_with("<p>caf\u{e9}</p>"));
    assert!(text.contains("faq.php.html#help"), "{text}");
    assert!(!text.contains("sid=abc"));
    assert!(repair("forums/topic.html", &text, &["forums/faq.php.html"], &[]).is_none());
    assert_eq!(
        navigation_report_line(count, 1),
        "repaired 3 local navigation links in 1 files"
    );
}

/// Unknown pages, meaningful queries, forms, external links and existing targets stay intact.
#[test]
fn leaves_unproven_navigation_and_interactive_targets_unchanged() {
    let original = r#"<a href='faq.php?id=2&amp;sid=abc'>Page</a><a href='faq.php?postorder=desc'>Order</a><a href='missing.php?sid=abc'>Missing</a><a href='https://elsewhere.invalid/faq.php?sid=abc'>External</a><a href='//example.com/faq.php'>Protocol</a><a href='existing.php'>Existing</a><a href='empty.php'>Empty</a><form action='faq.php?sid=abc'></form><img src='faq.php'><a href='../faq.php'>Outside</a>"#;
    let change = repair(
        "index.html",
        original,
        &["faq.php.html", "existing.php", "existing.php.html"],
        &["empty.php.html"],
    );
    assert!(change.is_none());
}

/// A base element changes link resolution, so metadata-free repair must skip that page.
#[test]
fn does_not_repair_pages_with_a_base_url() {
    let original = "<a href='faq.php?sid=abc'>FAQ</a><base href='https://elsewhere.invalid/'>";
    assert!(repair("index.html", original, &["faq.php.html"], &[]).is_none());
}

/// Encoded filenames and fragments must remain URLs rather than literal filesystem paths.
#[test]
fn preserves_url_encoding_in_repaired_links() {
    let original = "<a href='page%20one.php?sid=a&amp;session_id=b#some%20id'>FAQ</a>";
    let (text, count) = repair("index.html", original, &["page one.php.html"], &[]).unwrap();
    assert_eq!(count, 1);
    assert!(text.contains("page%20one.php.html#some%20id"), "{text}");
}

#[test]
fn tells_session_queries_apart() {
    let is_session = |query: &str| is_session_query(&query.chars().collect::<Vec<_>>());
    assert!(is_session("sid=1"));
    assert!(is_session("PHPSESSID=1&amp;cfid=2"));
    assert!(is_session(""));
    assert!(!is_session("sid=1&t=2"));
}

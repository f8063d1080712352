use webarchive_downloader_rust::download_refs::{
    extract_related_references, is_downloadable_file_url, is_extra_file_url,
    remove_missing_download_links,
};
use webarchive_downloader_rust::link_validation::{SiteFiles, SourceFile};
use webarchive_downloader_rust::path::LocalPath;
use webarchive_downloader_rust::pathmap::{parse_user_url, SiteMapper};

/// Uses the same HTML/CSS parser as validation, including unquoted and wrapped URLs.
#[test]
fn discovers_pages_srcset_css_and_wrapped_queries() {
    let mapper = SiteMapper::new("example.com").unwrap();
    let base = parse_user_url("http://example.com/pages/index.html").unwrap();
    let refs = extract_related_references(
        r#"<a href=next>Next</a><img srcset='//assets.example.com/a.gif 1x, /b.gif 2x'><a href='https://web.archive.org/web/20080101000000/http://example.com/viewtopic.php?t=7&amp;p=9'>Topic</a><a href='javascript:alert(1)'>JS</a><a href='https://unrelated.invalid/a.html'>External</a>"#,
        &base,
        &mapper,
        false,
    )
    .unwrap();
    assert!(refs.contains(&"http://example.com/pages/next".to_owned()));
    assert!(refs.contains(&"http://assets.example.com/a.gif".to_owned()));
    assert!(refs.contains(&"http://example.com/b.gif".to_owned()));
    assert!(refs.iter().any(|url| url.contains("viewtopic.php?t=7") && url.contains("p=9")));
    assert_eq!(refs.len(), 4);
    assert_eq!(
        extract_related_references(
            "@import 'theme.css'; body { background: url(../image.gif); }",
            &base,
            &mapper,
            true
        )
        .unwrap(),
        vec!["http://example.com/image.gif", "http://example.com/pages/theme.css"]
    );
}

/// Discovers downloads on related hosts without including unrelated sites.
#[test]
fn extracts_related_download_links() {
    let mapper = SiteMapper::new("example.com").unwrap();
    let base = parse_user_url("http://www.example.com/downloads.html").unwrap();
    let references = extract_related_references(
        r#"<a href="http://downloads.example.com/file.exe">Download</a><a href="http://other.test/file.exe">Other</a>"#,
        &base,
        &mapper,
        false,
    )
    .unwrap();

    assert_eq!(references, vec!["http://downloads.example.com/file.exe".to_owned()]);
}

/// Discovers static assets on related hosts without including unrelated sites.
#[test]
fn extracts_related_static_asset_links() {
    let mapper = SiteMapper::new("example.com").unwrap();
    let base = parse_user_url("http://www.example.com/forums/topic.html").unwrap();
    let references = extract_related_references(
        r#"<img src="http://downloads.example.com/files/preview/shot.jpg"><img src="http://other.test/shot.jpg">"#,
        &base,
        &mapper,
        false,
    )
    .unwrap();

    assert_eq!(references, vec!["http://downloads.example.com/files/preview/shot.jpg".to_owned()]);
}

#[test]
fn tells_downloads_and_static_files_apart() {
    let url = |text: &str| parse_user_url(text).unwrap();
    assert!(is_downloadable_file_url(&url("http://example.com/setup.EXE")));
    assert!(!is_downloadable_file_url(&url("http://example.com/logo.png")));
    assert!(is_extra_file_url(&url("http://example.com/logo.png")));
    assert!(!is_extra_file_url(&url("http://example.com/about.html")));
    assert!(!is_extra_file_url(&url("http://example.com/")));
}

#[test]
fn removes_links_to_missing_downloads_only() {
    let paths = vec![LocalPath::parse("/site/index.html"), LocalPath::parse("/site/there.zip")];
    let site = SiteFiles::new(&LocalPath::parse("/site"), &paths);
    let source = SourceFile {
        path: LocalPath::parse("/site/index.html"),
        text: "<a href=\"gone.zip\">A</a><a href=\"there.zip\">B</a><a href=\"gone.html\">C</a>"
            .to_owned(),
    };
    let (text, removed) = remove_missing_download_links(&site, &source).unwrap().unwrap();
    assert_eq!(removed, 1);
    assert_eq!(text, "<a>A</a><a href=\"there.zip\">B</a><a href=\"gone.html\">C</a>");
}

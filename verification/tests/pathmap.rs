use webarchive_downloader_rust::cdx::CdxRecord;
use webarchive_downloader_rust::path::LocalPath;
use webarchive_downloader_rust::pathmap::{
    normalize_lookup_url, relative_link, sanitize_segment, unwrap_wayback_path, unwrap_wayback_url,
    SiteMapper, TargetError,
};
use webarchive_downloader_rust::urls::UrlError;

fn mapped(original: &str, mimetype: &str) -> String {
    let mapper = SiteMapper::new("example.com").unwrap();
    mapper.local_path_for_url(original, mimetype).unwrap().to_text()
}

#[test]
fn maps_primary_host_root_to_index() {
    assert_eq!(mapped("http://example.com/", "text/html"), "index.html");
}

#[test]
fn maps_extensionless_html_to_directory_index() {
    assert_eq!(mapped("http://www.example.com/about", "text/html"), "about/index.html");
}

#[test]
fn maps_trailing_dot_primary_host_to_root() {
    assert_eq!(mapped("http://www.example.com.:80/", "text/html"), "index.html");
}

#[test]
fn detects_related_subdomains() {
    let mapper = SiteMapper::new("example.com").unwrap();

    assert!(mapper.is_related_host("downloads.example.com"));
    assert!(mapper.is_related_host("www.example.com"));
    assert!(!mapper.is_related_host("notexample.com"));
}

#[test]
fn maps_assets_without_forcing_index() {
    assert_eq!(mapped("http://example.com/css/site.css", "text/css"), "css/site.css");
}

#[test]
fn adds_mimetype_extension_to_extensionless_feed() {
    assert_eq!(mapped("http://example.com/rss", "application/rss+xml"), "rss.xml");
}

#[test]
fn appends_html_to_html_slugs_with_non_html_extensions() {
    assert_eq!(
        mapped("http://example.com/catalog/tag/another.by", "text/html"),
        "catalog/tag/another.by.html"
    );
}

#[test]
fn puts_non_primary_hosts_under_hosts_directory() {
    assert_eq!(
        mapped("https://cdn.example.com/lib/app.js", "application/javascript"),
        "_hosts/cdn.example.com/lib/app.js"
    );
}

#[test]
fn builds_original_url_candidates_for_primary_local_paths() {
    let mapper = SiteMapper::new("example.com").unwrap();

    assert_eq!(
        mapper.original_url_candidates_for_local_path(&LocalPath::parse("shared/logo.gif")),
        vec![
            "http://example.com/shared/logo.gif".to_owned(),
            "http://example.com:80/shared/logo.gif".to_owned(),
            "http://www.example.com/shared/logo.gif".to_owned(),
            "http://www.example.com:80/shared/logo.gif".to_owned(),
            "https://example.com/shared/logo.gif".to_owned(),
            "https://www.example.com/shared/logo.gif".to_owned(),
        ]
    );
}

#[test]
fn builds_original_url_candidates_for_host_local_paths() {
    let mapper = SiteMapper::new("example.com").unwrap();

    assert_eq!(
        mapper.original_url_candidates_for_local_path(&LocalPath::parse(
            "_hosts/downloads.example.com/file.exe"
        )),
        vec![
            "http://downloads.example.com/file.exe".to_owned(),
            "http://downloads.example.com:80/file.exe".to_owned(),
            "https://downloads.example.com/file.exe".to_owned(),
        ]
    );
}

#[test]
fn original_urls_are_percent_encoded() {
    let mapper = SiteMapper::new("example.com").unwrap();
    let candidates =
        mapper.original_url_candidates_for_local_path(&LocalPath::parse("images/a b.gif"));
    assert_eq!(candidates[0], "http://example.com/images/a%20b.gif");
}

#[test]
fn appends_stable_query_hash() {
    let path = mapped("http://example.com/css/site.css?v=1", "text/css");

    assert!(path.starts_with("css/site__q_"));
    assert!(path.ends_with(".css"));
}

#[test]
fn query_hashes_are_those_of_the_canonical_query() {
    assert_eq!(
        mapped("http://example.com/screenshots.htm?ScreenShot=0", "text/html"),
        "screenshots__q_bd691851ee951d9c.htm"
    );
    assert_eq!(
        mapped("http://example.com/a?b=2&a=1", "image/gif"),
        mapped("http://example.com/a?a=1&b=2", "image/gif")
    );
}

#[test]
fn maps_dynamic_css_to_static_css_and_ignores_session_query() {
    let stable_path = mapped("http://example.com/forums/style.php?id=1&lang=en", "text/css");
    let session_path =
        mapped("http://example.com/forums/style.php?sid=abc&id=1&lang=en", "text/css");

    assert_eq!(session_path, stable_path);
    assert!(stable_path.starts_with("forums/style.php__q_"));
    assert!(stable_path.ends_with(".css"));
}

#[test]
fn normalizes_lookup_url_host_trailing_dot() {
    assert_eq!(
        normalize_lookup_url("http://www.example.com.:80/about#section"),
        "http://www.example.com/about"
    );
}

#[test]
fn normalize_lookup_url_drops_volatile_query_parameters() {
    assert_eq!(
        normalize_lookup_url("http://example.com/forums/style.php?sid=abc&id=1&lang=en"),
        "http://example.com/forums/style.php?id=1&lang=en"
    );
    assert_eq!(
        normalize_lookup_url("http://example.com/forums/viewtopic.php?t=1&amp;sid=abc"),
        "http://example.com/forums/viewtopic.php?t=1"
    );
}

#[test]
fn lookup_keys_of_texts_that_are_no_urls_are_the_texts() {
    assert_eq!(normalize_lookup_url("not a url"), "not a url");
}

#[test]
fn computes_relative_links() {
    assert_eq!(
        relative_link(
            &LocalPath::parse("about/team/index.html"),
            &LocalPath::parse("css/site.css")
        ),
        "../../css/site.css"
    );
    assert_eq!(
        relative_link(&LocalPath::parse("index.html"), &LocalPath::parse("about/index.html")),
        "about/index.html"
    );
}

#[test]
fn relative_links_lead_back() {
    for (from, to) in [
        ("a/b/c.html", "a/d.html"),
        ("index.html", "index.html"),
        ("a/index.html", "a"),
        ("x/y.html", "_hosts/h/z.css"),
    ] {
        let from = LocalPath::parse(from);
        let to = LocalPath::parse(to);
        let link = LocalPath::parse(relative_link(&from, &to).as_str());
        let reached = from.parent().unwrap().join(&link).normalize();
        assert_eq!(reached.to_text(), to.to_text());
    }
}

#[test]
fn local_paths_stay_inside() {
    for (original, expected) in [
        ("http://example.com/a/%2e%2e/b.gif", "b.gif"),
        ("http://example.com/...../b.gif", "_/b.gif"),
        ("http://example.com/a:b*c.gif", "a_b_c.gif"),
    ] {
        assert_eq!(mapped(original, "image/gif"), expected);
    }
    assert_eq!(sanitize_segment(".."), "_");
    assert_eq!(sanitize_segment("a/b\\c"), "a_b_c");
}

#[test]
fn mappers_need_a_host() {
    assert_eq!(SiteMapper::new("data:text/plain,x").err(), Some(TargetError::MissingHost));
    assert_eq!(SiteMapper::new("http://").err(), Some(TargetError::Invalid));
    let mapper = SiteMapper::new("https://www.example.com/blog/").unwrap();
    assert_eq!(mapper.cdx_target(), "www.example.com");
    assert!(mapper.is_primary_host("example.com"));
    assert!(mapper.is_primary_host("www.example.com."));
    assert!(!mapper.is_primary_host("cdn.example.com"));
}

#[test]
fn records_are_mapped_by_their_lookup_keys() {
    let mapper = SiteMapper::new("example.com").unwrap();
    let mut record = CdxRecord {
        timestamp: "20200101000000".to_owned(),
        original: "http://example.com:80/about#x".to_owned(),
        mimetype: "text/html".to_owned(),
        status_code: 200,
        digest: "A".to_owned(),
        length: None,
    };
    let paths = mapper.records_to_paths(&vec![record.duplicate()]).unwrap();
    assert_eq!(paths.get("http://example.com/about").unwrap().to_text(), "about/index.html");
    record.original = "no url".to_owned();
    assert_eq!(
        mapper.records_to_paths(&vec![record]).err(),
        Some(UrlError::RelativeUrlWithoutBase)
    );
}

#[test]
fn replay_urls_are_unwrapped() {
    let wrapped = "https://web.archive.org/web/20080101000000/http://example.com/a.php?t=7";
    assert_eq!(unwrap_wayback_url(wrapped), "http://example.com/a.php?t=7");
    assert_eq!(unwrap_wayback_path(wrapped), "http://example.com/a.php");
    assert_eq!(unwrap_wayback_url("/about"), "/about");
}

#[test]
fn percent_decoding_replaces_broken_characters() {
    assert_eq!(webarchive_downloader_rust::scan::percent_decode("a%20b%C3%A9"), "a b\u{e9}");
    assert_eq!(webarchive_downloader_rust::scan::percent_decode("a%FFb%4"), "a\u{fffd}b%4");
}

#[test]
fn files_of_other_hosts_do_not_collide_with_the_site() {
    let other = mapped("http://cdn.example.com/a.js", "application/javascript");
    assert_eq!(other, "_hosts/cdn.example.com/a.js");
    for (url, expected) in [
        ("http://example.com/_hosts/cdn.example.com/a.js", "__hosts/cdn.example.com/a.js"),
        ("http://www.example.com/__hosts/a.js", "___hosts/a.js"),
        ("http://example.com/a/_hosts/b.js", "a/_hosts/b.js"),
        ("http://example.com/hosts/b.js", "hosts/b.js"),
    ] {
        let local = mapped(url, "application/javascript");
        assert_ne!(local, other);
        assert_eq!(local, expected);
    }
    assert_eq!(mapped("http://example.com/_hosts", "application/octet-stream"), "__hosts");
    let mapper = SiteMapper::new("example.com").unwrap();
    let candidates =
        mapper.original_url_candidates_for_local_path(&LocalPath::parse("__hosts/x/a.js"));
    assert_eq!(candidates[0], "http://example.com/_hosts/x/a.js");
}

#[test]
fn the_order_of_parameters_does_not_matter() {
    assert_eq!(
        mapped("http://example.com/forums/style.php?id=1&lang=en", "text/css"),
        mapped("http://example.com/forums/style.php?sid=abc&lang=en&id=1", "text/css")
    );
    assert_ne!(
        mapped("http://example.com/forums/style.php?id=1&lang=en", "text/css"),
        mapped("http://example.com/forums/style.php?id=2&lang=en", "text/css")
    );
}

#[test]
fn a_query_that_does_not_matter_is_no_query() {
    let plain = mapped("http://example.com/about", "text/html");
    assert_eq!(plain, "about/index.html");
    assert_eq!(mapped("http://example.com/about?sid=abc", "text/html"), plain);
    assert_eq!(mapped("http://example.com/about?", "text/html"), plain);
}

#[test]
fn candidates_lead_back_to_their_file() {
    let mapper = SiteMapper::new("example.com").unwrap();
    for name in ["shared/logo.gif", "__hosts/a/b-c_1.gif", "x.gif"] {
        let candidates = mapper.original_url_candidates_for_local_path(&LocalPath::parse(name));
        assert_eq!(candidates.len(), 6);
        for candidate in &candidates {
            assert_eq!(mapped(candidate, "image/gif"), name);
        }
    }
}

#[test]
fn simple_addresses_read_as_they_are_written() {
    let host = "a-1.b2.example.com";
    let mapper = SiteMapper::new(host).unwrap();
    assert_eq!(mapper.cdx_target(), host);
    let file = LocalPath::parse("img_1/b-c.d.gif");
    let candidates = mapper.original_url_candidates_for_local_path(&file);
    assert_eq!(
        candidates,
        vec![
            "http://a-1.b2.example.com/img_1/b-c.d.gif",
            "http://a-1.b2.example.com:80/img_1/b-c.d.gif",
            "http://www.a-1.b2.example.com/img_1/b-c.d.gif",
            "http://www.a-1.b2.example.com:80/img_1/b-c.d.gif",
            "https://a-1.b2.example.com/img_1/b-c.d.gif",
            "https://www.a-1.b2.example.com/img_1/b-c.d.gif",
        ]
    );
    for candidate in &candidates {
        let saved = mapper.local_path_for_url(candidate, "image/gif").unwrap();
        assert_eq!(saved.to_text(), "img_1/b-c.d.gif");
    }
    assert_eq!(mapper.local_path_for_url(host, "text/html").err(), Some(UrlError::RelativeUrlWithoutBase));
}

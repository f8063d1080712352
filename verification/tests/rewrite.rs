use webarchive_downloader_rust::maps::TextMap;
use webarchive_downloader_rust::path::LocalPath;
use webarchive_downloader_rust::pathmap::SiteMapper;
use webarchive_downloader_rust::rewrite::{
    rewrite_css, rewrite_html, ReferenceKind, RewriteContext,
};
use webarchive_downloader_rust::urls::{UrlError, UrlParts};

fn with_context<T>(test: T)
where
    T: FnOnce(RewriteContext<'_>),
{
    let mut known_paths = TextMap::new();
    known_paths.insert("http://example.com/about", LocalPath::parse("about/index.html"));
    known_paths.insert("http://example.com/img/logo.png", LocalPath::parse("img/logo.png"));
    known_paths.insert("http://example.com/css/site.css", LocalPath::parse("css/site.css"));
    let context = RewriteContext::new(
        "http://example.com/index.html",
        LocalPath::parse("index.html"),
        &known_paths,
    )
    .unwrap();
    test(context)
}

fn url(host: &str, path: &str) -> UrlParts {
    UrlParts {
        href: format!("http://{host}{path}"),
        scheme: "http".to_owned(),
        host: Some(host.to_owned()),
        path: path.to_owned(),
        query: None,
        pairs: Vec::new(),
    }
}

#[test]
fn rewrites_common_html_attributes() {
    with_context(|context| {
        let rewritten = rewrite_html(
            r#"<a href="/about#team">About</a><img src="http://example.com/img/logo.png"><a href="mailto:test@example.com">Mail</a>"#,
            &context,
        )
        .unwrap();

        assert!(rewritten.contains(r#"href="about/index.html#team""#));
        assert!(rewritten.contains(r#"src="img/logo.png""#));
        assert!(rewritten.contains(r#"href="mailto:test@example.com""#));
    });
}

#[test]
fn rewrites_css_url_references() {
    with_context(|context| {
        let rewritten = rewrite_css(r#".logo { background: url('/img/logo.png'); }"#, &context);

        assert_eq!(rewritten, r#".logo { background: url('img/logo.png'); }"#);
    });
}

#[test]
fn style_sheets_are_rewritten_by_their_tokens() {
    with_context(|context| {
        let rewritten = rewrite_css(
            "/* é url(/img/logo.png) */ @import \"/css/site.css\"; a { b: URL( /img/logo.png ); content: 'url(/img/logo.png)' }",
            &context,
        );
        assert_eq!(
            rewritten,
            "/* é url(/img/logo.png) */ @import \"css/site.css\"; a { b: url(img/logo.png); content: 'url(/img/logo.png)' }"
        );
        let html = rewrite_html(
            r#"<style>@import '/css/site.css'; /* url(/img/logo.png) */</style><p style="b: url(/img/logo.png)"></p>"#,
            &context,
        )
        .unwrap();
        assert_eq!(
            html,
            r#"<style>@import 'css/site.css'; /* url(/img/logo.png) */</style><p style="b: url(img/logo.png)"></p>"#
        );
    });
}

#[test]
fn pages_without_a_capture_have_a_place_of_their_own() {
    with_context(|context| {
        let page = url("www.example.com", "/news");
        let kept = context.fallback_same_site_path(&page, ReferenceKind::Document);
        assert_eq!(kept.unwrap().to_text(), "news/index.html");
        let image = url("example.com", "/img/gone.gif");
        let kept = context.fallback_same_site_path(&image, ReferenceKind::Resource);
        assert_eq!(kept.unwrap().to_text(), "img/gone.gif");
        let foreign = url("example.org", "/news");
        assert!(context.fallback_same_site_path(&foreign, ReferenceKind::Document).is_none());
    });
}

#[test]
fn rewrites_static_urls_in_rollover_event_attributes() {
    with_context(|context| {
        let rewritten = rewrite_html(
            r#"<a onMouseOver='changeImage("home","/img/logo.png")' onMouseOut='changeImage("home","http://example.com/img/logo.png")'><img src="/img/logo.png"></a>"#,
            &context,
        )
        .unwrap();

        assert!(rewritten.contains("img/logo.png"));
        assert!(!rewritten.contains("/img/logo.png"));
        assert!(!rewritten.contains("http://example.com/img/logo.png"));
    });
}

#[test]
fn rewrites_urls_inside_script_document_write_html_strings() {
    with_context(|context| {
        let rewritten = rewrite_html(
            r#"<script>document.write('<IMG SRC="/shared/spacer.gif"><A HREF="/general/shop.htm">Shop</A>');</script>"#,
            &context,
        )
        .unwrap();

        assert!(rewritten.contains(r#"SRC="shared/spacer.gif""#));
        assert!(rewritten.contains(r#"HREF="general/shop.htm""#));
        assert!(!rewritten.contains(r#"SRC="/shared/spacer.gif""#));
        assert!(!rewritten.contains(r#"HREF="/general/shop.htm""#));
    });
}

#[test]
fn falls_back_to_same_site_relative_paths_for_unknown_assets() {
    with_context(|context| {
        let rewritten = rewrite_html(
            r#"<img src="/img/missing.gif"><a href="https://www.example.com/user/index.htm">Account</a>"#,
            &context,
        )
        .unwrap();

        assert!(rewritten.contains(r#"src="img/missing.gif""#));
        assert!(rewritten.contains(r#"href="user/index.htm""#));
    });
}

#[test]
fn falls_back_to_query_hashed_paths_for_unknown_same_site_urls() {
    with_context(|context| {
        let rewritten = rewrite_html(
            r#"<a href="/screenshots.htm?ScreenShot=0">First</a>"#,
            &context,
        )
        .unwrap();

        assert!(rewritten.contains(r#"href="screenshots__q_bd691851ee951d9c.htm""#));
    });
}

#[test]
fn keeps_meaningful_forum_links_with_volatile_query_params() {
    with_context(|context| {
        let rewritten = rewrite_html(
            r#"<a href="/forums/viewforum.php?f=1&amp;sid=abcdef" class="forumtitle">General</a>"#,
            &context,
        )
        .unwrap();

        assert!(rewritten.contains("class=\"forumtitle\""));
        assert!(rewritten.contains("href=\"forums/viewforum.php__q_"));
        assert!(rewritten.contains(".html\""));
        assert!(!rewritten.contains("sid=abcdef"));
        assert!(!rewritten.contains("<a class=\"forumtitle\""));
    });
}

#[test]
fn unwraps_wayback_links_before_rewriting() {
    with_context(|context| {
        let rewritten = rewrite_html(
            r#"<link href="https://web.archive.org/web/20200101000000id_/http://example.com/css/site.css" rel="stylesheet">"#,
            &context,
        )
        .unwrap();

        assert!(rewritten.contains(r#"href="css/site.css""#));
    });
}

#[test]
fn suppresses_noise_references_without_fallback_paths() {
    with_context(|context| {
        let rewritten = rewrite_html(
            r#"<a href="/forums/login.php">Login</a><img src="/forums/cron.php" width="1" height="1" alt="cron"><img src="/img/logo.png?sid=abcdef">"#,
            &context,
        )
        .unwrap();

        assert!(rewritten.contains("<a>Login</a>"));
        assert!(!rewritten.contains("cron.php"));
        assert!(rewritten.contains(r#"src="img/logo.png""#));
    });
}

#[test]
fn suppresses_unresolved_download_links() {
    with_context(|context| {
        let rewritten = rewrite_html(
            r#"<a href="http://downloads.example.com/file.exe" target="download">Download</a>"#,
            &context,
        )
        .unwrap();

        assert_eq!(rewritten, r#"<a target="download">Download</a>"#);
    });
}

#[test]
fn maps_related_uncaptured_download_links_when_mapper_is_available() {
    let known_paths = TextMap::new();
    let mapper = SiteMapper::new("example.com").unwrap();
    let context = RewriteContext::new_with_mapper(
        "http://example.com/downloads.html",
        LocalPath::parse("downloads.html"),
        &known_paths,
        &mapper,
    )
    .unwrap();

    let rewritten = rewrite_html(
        r#"<a href="http://downloads.example.com/file.exe">Download</a>"#,
        &context,
    )
    .unwrap();

    assert_eq!(
        rewritten,
        r#"<a href="_hosts/downloads.example.com/file.exe">Download</a>"#
    );
}

#[test]
fn maps_related_uncaptured_static_assets_when_mapper_is_available() {
    let known_paths = TextMap::new();
    let mapper = SiteMapper::new("example.com").unwrap();
    let context = RewriteContext::new_with_mapper(
        "http://example.com/forums/topic.html",
        LocalPath::parse("forums/topic.html"),
        &known_paths,
        &mapper,
    )
    .unwrap();

    let rewritten = rewrite_html(
        r#"<img src="http://downloads.example.com/files/preview/shot.jpg">"#,
        &context,
    )
    .unwrap();

    assert_eq!(
        rewritten,
        r#"<img src="../_hosts/downloads.example.com/files/preview/shot.jpg">"#
    );
}

#[test]
fn keeps_captured_download_links() {
    let mut known_paths = TextMap::new();
    known_paths.insert(
        "http://downloads.example.com/file.exe",
        LocalPath::parse("downloads/file.exe"),
    );
    let context = RewriteContext::new(
        "http://example.com/downloads.html",
        LocalPath::parse("downloads.html"),
        &known_paths,
    )
    .unwrap();

    let rewritten = rewrite_html(
        r#"<a href="http://downloads.example.com/file.exe">Download</a>"#,
        &context,
    )
    .unwrap();

    assert_eq!(rewritten, r#"<a href="downloads/file.exe">Download</a>"#);
}

#[test]
fn rewrites_srcset_refresh_option_and_legacy_attributes() {
    with_context(|context| {
        let rewritten = rewrite_html(
            r#"<img srcset="/img/logo.png 1x, http://example.com/img/logo.png 2x"><meta http-equiv="refresh" content="0; url=/about"><option value="/about">About</option><option value="Action">Action</option><applet archive="/img/logo.png"></applet><param value="/img/logo.png">"#,
            &context,
        )
        .unwrap();

        assert!(rewritten.contains(r#"srcset="img/logo.png 1x, img/logo.png 2x""#), "{rewritten}");
        assert!(rewritten.contains("about/index.html"), "{rewritten}");
        assert!(rewritten.contains(r#"<option value="about/index.html">"#), "{rewritten}");
        assert!(rewritten.contains(r#"<option value="Action">"#), "{rewritten}");
        assert!(rewritten.contains(r#"archive="img/logo.png""#), "{rewritten}");
        assert!(rewritten.contains(r#"<param value="img/logo.png">"#), "{rewritten}");
    });
}

#[test]
fn rewrites_style_elements_and_attributes() {
    with_context(|context| {
        let rewritten = rewrite_html(
            r#"<style>b { background: url(/img/logo.png) }</style><p style="background: url('/img/logo.png')">"#,
            &context,
        )
        .unwrap();
        assert!(rewritten.contains("url(img/logo.png)"), "{rewritten}");
        assert!(!rewritten.contains("/img/logo.png'"), "{rewritten}");
    });
}

#[test]
fn documents_need_an_absolute_url() {
    let known_paths = TextMap::new();
    let context = RewriteContext::new("about", LocalPath::parse("index.html"), &known_paths);
    assert_eq!(context.err(), Some(UrlError::RelativeUrlWithoutBase));
}

#[test]
fn links_to_uncaptured_pages_lead_where_they_would_be_saved() {
    let known_paths = TextMap::new();
    let mapper = SiteMapper::new("example.com").unwrap();
    let context = RewriteContext::new_with_mapper(
        "http://example.com/index.html",
        LocalPath::parse("index.html"),
        &known_paths,
        &mapper,
    )
    .unwrap();
    for url in [
        "http://example.com/about",
        "http://www.example.com/news/",
        "http://example.com/topic.php?t=2&f=1",
        "http://example.com/_hosts/page.html",
        "http://example.com/",
    ] {
        let place = mapper.local_path_for_url(url, "text/html").unwrap().to_text();
        assert_eq!(
            rewrite_html(&format!("<a href=\"{url}\">Page</a>"), &context).unwrap(),
            format!("<a href=\"{place}\">Page</a>")
        );
    }
}

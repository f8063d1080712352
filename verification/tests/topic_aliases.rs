use webarchive_downloader_rust::alias_repair::{
    create_missing_topic_aliases, page_files, AliasRepairReport,
};
use webarchive_downloader_rust::link_validation::{validate_local_links, SiteFiles, SourceFile};
use webarchive_downloader_rust::path::LocalPath;

const PRIMARY: &str = "forums/viewtopic.php__q_primary.html";
const OTHER: &str = "_hosts/other.example.com/forums/viewtopic.php__q_other.html";
const ALIAS: &str = "_hosts/other.example.com/forums/viewtopic.php__q_alias.html";

fn site_of(files: &[(String, String)]) -> (SiteFiles, Vec<SourceFile>) {
    let paths: Vec<LocalPath> =
        files.iter().map(|(name, _)| LocalPath::parse(&format!("/site/{name}"))).collect();
    let site = SiteFiles::new(&LocalPath::parse("/site"), &paths);
    let sources = page_files(&paths)
        .iter()
        .map(|path| {
            let text = files
                .iter()
                .find(|(name, _)| format!("/site/{name}") == path.to_text())
                .unwrap()
                .1
                .clone();
            SourceFile { path: path.duplicate(), text }
        })
        .collect();
    (site, sources)
}

/// Repairs a site: the copies, by source and target, and the counts.
fn repair(files: &[(&str, &str)]) -> (Vec<(String, String)>, AliasRepairReport) {
    let files: Vec<(String, String)> =
        files.iter().map(|(name, text)| ((*name).to_owned(), (*text).to_owned())).collect();
    let (site, sources) = site_of(&files);
    let (copies, report) = create_missing_topic_aliases(site, &sources);
    let copies = copies
        .iter()
        .map(|copy| {
            (
                copy.source.to_text().replace("/site/", ""),
                copy.target.to_text().replace("/site/", ""),
            )
        })
        .collect();
    (copies, report)
}

fn copy(source: &str, target: &str) -> (String, String) {
    (source.to_owned(), target.to_owned())
}

#[test]
fn creates_missing_topic_alias_from_matching_title() {
    let (copies, report) = repair(&[
        (
            "forums/source.html",
            r#"<a href="viewtopic.php__q_missing.html" class="topictitle">[RAS2] Diary Entry #32</a>"#,
        ),
        (
            "forums/viewtopic.php__q_existing.html",
            r#"<title>Small Rockets Forum &bull; View topic - [RAS2] Diary Entry #32</title><p>topic</p>"#,
        ),
    ]);

    assert_eq!(report.created, 1);
    assert_eq!(
        copies,
        vec![copy("forums/viewtopic.php__q_existing.html", "forums/viewtopic.php__q_missing.html")]
    );
}

#[test]
fn leaves_ambiguous_titles_unresolved() {
    let topic = r#"<title>Small Rockets Forum &bull; View topic - Duplicate</title>"#;
    let (_, report) = repair(&[
        ("forums/source.html", r#"<a href="viewtopic.php__q_missing.html">Duplicate</a>"#),
        ("forums/viewtopic.php__q_one.html", topic),
        ("forums/viewtopic.php__q_two.html", topic),
    ]);

    assert_eq!(report.created, 0);
    assert_eq!(report.ambiguous, 1);
}

#[test]
fn creates_self_alias_for_matching_topic_title() {
    let (copies, report) = repair(&[(
        "forums/viewtopic.php__q_existing.html",
        r#"<title>SmallRockets Forum :: View topic - Mission 16</title><a href="viewtopic.php__q_missing.html">Mission 16</a>"#,
    )]);

    assert_eq!(report.created, 1);
    assert_eq!(copies[0].1, "forums/viewtopic.php__q_missing.html");
}

#[test]
fn creates_self_alias_for_post_fragment() {
    let (copies, report) = repair(&[(
        "forums/viewtopic.php__q_existing.html",
        r#"<title>SmallRockets Forum &bull; View topic - Two questions</title><div id="p25315"></div><a href="viewtopic.php__q_missing.html#p25315"></a>"#,
    )]);

    assert_eq!(report.created, 1);
    assert_eq!(copies[0].1, "forums/viewtopic.php__q_missing.html");
}

#[test]
fn creates_alias_for_post_fragment_found_in_another_topic_file() {
    let (copies, report) = repair(&[
        ("forums/source.html", r#"<a href="viewtopic.php__q_missing.html#21710"></a>"#),
        (
            "forums/viewtopic.php__q_existing.html",
            r#"<title>SmallRockets Forum :: View topic - Other</title><a name="21710"></a>"#,
        ),
    ]);

    assert_eq!(report.created, 1);
    assert_eq!(copies[0].1, "forums/viewtopic.php__q_missing.html");
}

#[test]
fn resolves_ambiguous_topic_title_from_forum_row_latest_post_link() {
    let (copies, report) = repair(&[
        (
            "forums/viewforum.html",
            r#"<li><a href="viewtopic.php__q_missing.html" class="topictitle">LAN Gaming HOW-TO: Multiplayer gaming over a local network</a><a href="viewtopic.php__q_latest.html#p28454">latest</a></li>"#,
        ),
        (
            "forums/viewtopic.php__q_latest.html",
            r#"<title>Small Rockets Forum &bull; View topic - LAN Gaming HOW-TO: Multiplayer gaming over a local network</title><div id="p28454"></div><p>latest</p>"#,
        ),
        (
            "forums/viewtopic.php__q_other.html",
            r#"<title>Small Rockets Forum &bull; View topic - LAN Gaming HOW-TO: Multiplayer gaming over a local network</title><p>other</p>"#,
        ),
    ]);

    assert_eq!(report.created, 1);
    assert_eq!(
        copies,
        vec![copy("forums/viewtopic.php__q_latest.html", "forums/viewtopic.php__q_missing.html")]
    );
}

#[test]
fn rows_are_measured_in_bytes() {
    let front = "é".repeat(50);
    let title = "LAN Gaming";
    let forum = format!(
        r#"<li>{front}<tr><a href="viewtopic.php__q_missing.html" class="topictitle">{title}</a></li><a href="viewtopic.php__q_latest.html#p28454">latest</a></tr>"#
    );
    let topic = format!("<title>Forum &bull; View topic - {title}</title>");
    let latest = format!(r#"{topic}<div id="p28454"></div>"#);
    let (copies, _) = repair(&[
        ("forums/viewforum.html", &forum),
        ("forums/viewtopic.php__q_latest.html", &latest),
        ("forums/viewtopic.php__q_other.html", &topic),
    ]);
    assert_eq!(
        copies,
        vec![copy("forums/viewtopic.php__q_latest.html", "forums/viewtopic.php__q_missing.html")]
    );
}

/// Numeric post IDs and titles must be looked up in the destination forum.
#[test]
fn alias_matching_uses_destination_forum() {
    for fragment in ["#p42", ""] {
        let link = format!("<a href='viewtopic.php__q_missing.html{fragment}'>Same title</a>");
        let (copies, report) = repair(&[
            (
                PRIMARY,
                "<title>Forum :: View topic - Same title</title><p id='p42'>PRIMARY POST</p>",
            ),
            (
                OTHER,
                "<title>Forum :: View topic - Same title</title><p id='p42'>UNRELATED POST</p>",
            ),
            ("forums/index.html", link.as_str()),
        ]);
        assert_eq!(report.created, 1);
        assert_eq!(copies, vec![copy(PRIMARY, "forums/viewtopic.php__q_missing.html")]);
    }
}

/// The referring page's own anchors/title cannot justify an alias in another forum.
#[test]
fn self_matches_cannot_cross_forum_boundaries() {
    for (text, fragment) in [("Same title", ""), ("Print view", ""), ("Post", "#p42")] {
        let page = format!("<title>Forum :: View topic - Same title</title><p id='p42'>Primary</p><a href='../{ALIAS}{fragment}'>{text}</a>");
        let (copies, report) = repair(&[(PRIMARY, page.as_str())]);
        assert_eq!(report.created, 0);
        assert!(copies.is_empty());
    }
}

/// A latest-post link in a row cannot import an unrelated forum by title or anchor.
#[test]
fn sibling_matches_cannot_cross_forum_boundaries() {
    for sibling in [OTHER, "_hosts/other.example.com/forums/viewtopic.php__q_absent.html"] {
        let row = format!("<li><a href='viewtopic.php__q_missing.html'>Same title</a><a href='../{sibling}#p42'>Latest</a></li>");
        let (copies, _) = repair(&[
            (OTHER, "<title>Forum :: View topic - Same title</title><p id='p42'>Unrelated</p>"),
            ("forums/index.html", row.as_str()),
        ]);
        assert!(!copies
            .iter()
            .any(|(_, target)| target == "forums/viewtopic.php__q_missing.html"));
    }
}

/// Common layout anchors such as 'top' do not identify a post or discussion.
#[test]
fn layout_anchors_are_not_post_identity() {
    for anchor in ["top", "content", "p"] {
        let topic = format!("<title>Forum :: View topic - Different</title><p id='{anchor}'>Wrong</p>");
        let link = format!("<a href='viewtopic.php__q_missing.html#{anchor}'>Unknown</a>");
        let (_, report) = repair(&[(PRIMARY, topic.as_str()), ("forums/index.html", link.as_str())]);
        assert_eq!(report.created, 0);
    }
}

/// Forums installed in different directories on one host also have independent post IDs.
#[test]
fn separate_forum_directories_do_not_share_post_ids() {
    let (copies, report) = repair(&[
        (PRIMARY, "<title>Forum :: View topic - Topic</title><p id='p42'>Wrong forum</p>"),
        ("support/forums/index.html", "<a href='viewtopic.php__q_missing.html#p42'>Topic</a>"),
    ]);
    assert_eq!(report.created, 0);
    assert!(copies.is_empty());
}

/// Cross-forum links are resolved in the destination namespace, not the referring page's.
#[test]
fn explicit_cross_forum_link_uses_destination_topic() {
    let page = format!("<title>Forum :: View topic - Topic</title><p id='p42'>Referring post</p><a href='../{ALIAS}#p42'>Topic</a>");
    let (copies, report) = repair(&[
        (PRIMARY, page.as_str()),
        (OTHER, "<title>Forum :: View topic - Topic</title><p id='p42'>Correct destination</p>"),
    ]);
    assert_eq!(report.created, 1);
    assert_eq!(copies, vec![copy(OTHER, ALIAS)]);
}

/// Keeping copies beside their source preserves images, styles, scripts and navigation.
#[test]
fn aliases_preserve_relative_links_and_existing_files() {
    let source = "<title>Forum :: View topic - Topic</title><link href='style.css'><script src='script.js'></script><img src='images/logo.gif'><p id='p42'>Topic</p><a href='viewtopic.php__q_missing.html#p42'>Post</a>";
    let mut files: Vec<(String, String)> = vec![
        (PRIMARY.to_owned(), source.to_owned()),
        ("forums/style.css".to_owned(), String::new()),
        ("forums/script.js".to_owned(), String::new()),
        ("forums/images/logo.gif".to_owned(), String::new()),
        (
            "forums/viewtopic.php__q_existing.html".to_owned(),
            "<p>Keep existing content</p>".to_owned(),
        ),
        (
            "forums/index.html".to_owned(),
            "<a href='viewtopic.php__q_existing.html#p42'>Post</a>".to_owned(),
        ),
    ];
    let (site, sources) = site_of(&files);
    let (copies, report) = create_missing_topic_aliases(site, &sources);
    assert_eq!(report.created, 1);
    assert_eq!(copies[0].source.to_text(), format!("/site/{PRIMARY}"));
    assert_eq!(copies[0].target.to_text(), "/site/forums/viewtopic.php__q_missing.html");
    files.push(("forums/viewtopic.php__q_missing.html".to_owned(), source.to_owned()));
    let (site, sources) = site_of(&files);
    assert!(validate_local_links(&site, &sources).unwrap().missing.is_empty());
    assert_eq!(create_missing_topic_aliases(site, &sources).1.created, 0);
}

use webarchive_downloader_rust::link_validation::{
    candidate_files, extract_html_references, find_unusable_pages, html_files,
    remove_missing_local_href_links, remove_missing_local_resource_references,
    unique_missing_targets, validate_local_links, LinkValidationReport, SiteFiles, SourceFile,
};
use webarchive_downloader_rust::path::LocalPath;
use webarchive_downloader_rust::pathmap::relative_link;

/// A saved site: the files that are looked at, with their texts, and the others.
struct Site {
    sources: Vec<(String, String)>,
    others: Vec<String>,
}

impl Site {
    fn new(sources: &[(&str, &str)], others: &[&str]) -> Site {
        Site {
            sources: sources
                .iter()
                .map(|(name, text)| ((*name).to_owned(), (*text).to_owned()))
                .collect(),
            others: others.iter().map(|name| (*name).to_owned()).collect(),
        }
    }

    fn files(&self) -> SiteFiles {
        let mut paths = Vec::new();
        for (name, _) in &self.sources {
            paths.push(LocalPath::parse(&format!("/site/{name}")));
        }
        for name in &self.others {
            paths.push(LocalPath::parse(&format!("/site/{name}")));
        }
        SiteFiles::new(&LocalPath::parse("/site"), &paths)
    }

    fn source_files(&self) -> Vec<SourceFile> {
        self.sources
            .iter()
            .map(|(name, text)| SourceFile {
                path: LocalPath::parse(&format!("/site/{name}")),
                text: text.clone(),
            })
            .collect()
    }

    fn validate(&self) -> LinkValidationReport {
        validate_local_links(&self.files(), &self.source_files()).unwrap()
    }

    fn remove_resources(&mut self) -> usize {
        let files = self.files();
        let mut removed = 0;
        for source in self.source_files() {
            let change = remove_missing_local_resource_references(&files, &source).unwrap();
            if let Some((text, count)) = change {
                removed += count;
                for entry in &mut self.sources {
                    if format!("/site/{}", entry.0) == source.path.to_text() {
                        entry.1 = text.clone();
                    }
                }
            }
        }
        removed
    }
}

#[test]
fn validates_existing_local_links() {
    let site = Site::new(
        &[
            (
                "index.html",
                r#"<a href="about/">About</a><img src="img/logo.png"><link href="style.css" rel="stylesheet">"#,
            ),
            ("about/index.html", "about"),
            ("style.css", "body { color: black; }"),
        ],
        &["img/logo.png"],
    );
    let report = site.validate();

    assert_eq!(report.checked, 3);
    assert!(report.missing.is_empty());
}

#[test]
fn reports_missing_local_links_and_ignores_external_links() {
    let site = Site::new(
        &[(
            "index.html",
            r##"<a href="missing.html#topic">Missing</a><img src="https://example.com/logo.png"><a href="#top">Top</a>"##,
        )],
        &[],
    );
    let report = site.validate();

    assert_eq!(report.checked, 1);
    assert_eq!(report.missing.len(), 1);
    assert_eq!(report.missing[0].href, "missing.html#topic");
    assert_eq!(report.missing[0].target.to_text(), "/site/missing.html");
}

#[test]
fn validates_css_url_references() {
    let style = [("style.css", r#"body { background: URL("img/bg.png"); }"#)];
    let report = Site::new(&style, &[]).validate();

    assert_eq!(report.checked, 1);
    assert_eq!(report.missing.len(), 1);
    assert_eq!(report.missing[0].href, "img/bg.png");

    let report = Site::new(&style, &["img/bg.png"]).validate();
    assert_eq!(report.checked, 1);
    assert!(report.missing.is_empty());
}

#[test]
fn validates_root_relative_and_percent_decoded_links() {
    let site = Site::new(
        &[
            ("docs/page one.html", "page"),
            ("index.html", r#"<a href="/docs/page%20one.html">Page</a>"#),
        ],
        &[],
    );
    let report = site.validate();

    assert_eq!(report.checked, 1);
    assert!(report.missing.is_empty());
}

#[test]
fn validates_dropdown_srcset_meta_refresh_and_legacy_references() {
    let site = Site::new(
        &[
            ("pc/game/index.htm", "game"),
            ("about.html", "about"),
            (
                "index.html",
                r#"<select><option value="/pc/game/index.htm">Game</option><option value="Action">Action</option></select><img srcset="img/small.png 1x, img/large.png 2x"><meta http-equiv="refresh" content="0; url=about.html"><param value="movie.swf"><applet archive="java/game.jar"></applet>"#,
            ),
        ],
        &["img/small.png", "img/large.png", "movie.swf", "java/game.jar"],
    );
    let report = site.validate();

    assert_eq!(report.checked, 6);
    assert!(report.missing.is_empty());
    assert!(report.missing_image_sources.is_empty());
}

#[test]
fn reports_images_without_sources() {
    let site = Site::new(
        &[("index.html", r#"<img name="webgames" alt="Web games"><img src="ok.gif">"#)],
        &["ok.gif"],
    );
    let report = site.validate();

    assert_eq!(report.checked, 1);
    assert!(report.missing.is_empty());
    assert_eq!(report.missing_image_sources.len(), 1);
    assert_eq!(report.missing_image_sources[0].source.to_text(), "/site/index.html");
    assert!(report.missing_image_sources[0].descriptor.contains(r#"name="webgames""#));
}

#[test]
fn descriptions_of_images_are_escaped() {
    let report = extract_html_references("<img alt='a\nb'>").unwrap();
    assert!(report.missing_image_sources[0].contains(r#"alt="a\nb""#));
}

#[test]
fn validates_javascript_event_image_references() {
    let site = Site::new(
        &[(
            "index.html",
            r#"<a onmouseover="swap('button', 'images/button_on.gif')">Button</a>"#,
        )],
        &[],
    );
    let report = site.validate();

    assert_eq!(report.checked, 1);
    assert_eq!(report.missing.len(), 1);
    assert_eq!(report.missing[0].href, "images/button_on.gif");
}

#[test]
fn validates_script_string_references_without_treating_text_as_links() {
    let site = Site::new(
        &[(
            "index.html",
            r#"<script>var ok = "images/button.gif"; var text = "SmallRockets.com";</script>"#,
        )],
        &["images/button.gif"],
    );
    let report = site.validate();

    assert_eq!(report.checked, 1);
    assert!(report.missing.is_empty());
}

#[test]
fn ignores_javascript_dynamic_action_paths_without_static_extensions() {
    let site = Site::new(
        &[(
            "index.html",
            r#"<script>location.href = "/cgi-bin/login2.cgi?action=signin";</script>"#,
        )],
        &[],
    );
    let report = site.validate();

    assert_eq!(report.checked, 0);
    assert!(report.missing.is_empty());
}

#[test]
fn removes_missing_local_anchor_hrefs_after_alias_repair() {
    let site = Site::new(
        &[(
            "index.html",
            r##"<a href="user/index.htm">Account</a><a href="https://example.com/">External</a><a href="#top">Top</a>"##,
        )],
        &[],
    );
    let change = remove_missing_local_href_links(&site.files(), &site.source_files()[0]).unwrap();

    let (text, removed) = change.unwrap();
    assert_eq!(removed, 1);
    assert_eq!(
        text,
        r##"<a>Account</a><a href="https://example.com/">External</a><a href="#top">Top</a>"##
    );
}

#[test]
fn keeps_existing_local_anchor_hrefs() {
    let site = Site::new(
        &[
            ("user/index.htm", "account"),
            ("index.html", r#"<a href="user/index.htm">Account</a>"#),
        ],
        &[],
    );
    let change = remove_missing_local_href_links(&site.files(), &site.source_files()[1]).unwrap();

    assert!(change.is_none());
}

#[test]
fn removes_missing_local_resource_references_after_recovery() {
    let mut site = Site::new(
        &[(
            "index.html",
            r#"<img src="images/missing.gif" alt="missing"><img src="images/ok.gif"><script src="missing.js"></script><link rel="stylesheet" href="missing.css">"#,
        )],
        &["images/ok.gif"],
    );
    let removed = site.remove_resources();

    assert_eq!(removed, 3);
    let output = &site.sources[0].1;
    assert!(!output.contains("images/missing.gif"));
    assert!(!output.contains("missing.js"));
    assert!(!output.contains("missing.css"));
    assert!(output.contains("images/ok.gif"));
    assert!(site.validate().missing.is_empty());
}

#[test]
fn removes_missing_css_and_event_resource_references() {
    let mut site = Site::new(
        &[
            (
                "index.html",
                r#"<a onmouseover="swap('button','images/missing_on.gif')" style="background: url(images/missing_bg.gif)">Button</a>"#,
            ),
            (
                "style.css",
                r#".missing { background: URL("images/missing_css.gif"); } .ok { background: url("images/ok.gif"); }"#,
            ),
        ],
        &["images/ok.gif"],
    );
    let removed = site.remove_resources();

    assert_eq!(removed, 3);
    assert!(site.validate().missing.is_empty());
    assert!(site.sources[1].1.contains(r#"url("images/ok.gif")"#));
}

#[test]
fn one_missing_target_of_two_pages_counts_once() {
    let site = Site::new(
        &[("a.html", "<img src='missing.gif'>"), ("b.html", "<img src='missing.gif'>")],
        &[],
    );
    let report = site.validate();
    assert_eq!(report.missing.len(), 2);
    assert_eq!(unique_missing_targets(&report.missing), 1);
}

#[test]
fn finds_saved_error_pages() {
    let site = Site::new(
        &[
            (
                "topic.html",
                "<table><tr><td align='center'><span class='gen'>The topic or post you requested does not exist</span></td></tr></table>",
            ),
            ("index.html", "<p>Welcome</p>"),
        ],
        &[],
    );
    let pages = find_unusable_pages(&site.source_files());
    assert_eq!(pages.len(), 1);
    assert_eq!(pages[0].to_text(), "/site/topic.html");
}

#[test]
fn links_outside_the_site_are_not_checked() {
    let site = Site::new(&[("index.html", r#"<a href="../other.html">Other</a>"#)], &[]);
    assert_eq!(site.validate().checked, 0);
}

#[test]
fn picks_the_files_that_hold_references() {
    let paths: Vec<LocalPath> = ["b.css", "a.html", "c.gif", "d.XHTML"]
        .iter()
        .map(|name| LocalPath::parse(name))
        .collect();
    let names = |paths: Vec<LocalPath>| paths.iter().map(|p| p.to_text()).collect::<Vec<_>>();
    assert_eq!(names(candidate_files(&paths)), vec!["a.html", "b.css", "d.XHTML"]);
    assert_eq!(names(html_files(&paths)), vec!["a.html", "d.XHTML"]);
}

#[test]
fn links_between_saved_files_are_found() {
    let link = relative_link(
        &LocalPath::parse("forum/topics/index.html"),
        &LocalPath::parse("img/logo.png"),
    );
    assert_eq!(link, "../../img/logo.png");
    let page = format!("<img src='{link}'><a href='{link}#top'>Logo</a>");
    let report = Site::new(&[("forum/topics/index.html", &page)], &["img/logo.png"]).validate();
    assert_eq!(report.checked, 2);
    assert!(report.missing.is_empty());

    let encoded = Site::new(&[("index.html", "<img src='a%20b.gif'>")], &["a%20b.gif"]).validate();
    assert_eq!(encoded.missing[0].target.to_text(), "/site/a b.gif");
}

#[test]
fn nothing_is_missing_where_references_were_removed() {
    let mut site = Site::new(
        &[
            (
                "style.css",
                "a { b: url( 'gone.gif' ); } c { d: URL(img/ok.gif) url(gone.png) } e { f: url(",
            ),
            (
                "index.html",
                r#"<script>show("img/ok.gif", 'gone.gif', "it\"s", "gone.js")</script>"#,
            ),
        ],
        &["img/ok.gif"],
    );
    assert_eq!(site.validate().missing.len(), 4);
    assert_eq!(site.remove_resources(), 4);
    assert!(site.validate().missing.is_empty());
    assert_eq!(
        site.sources[0].1,
        "a { b: url( \"\" ); } c { d: URL(img/ok.gif) url(\"\") } e { f: url("
    );
    assert_eq!(
        site.sources[1].1,
        r#"<script>show("img/ok.gif", '', "it\"s", "")</script>"#
    );
    assert_eq!(site.remove_resources(), 0);
}

#[test]
fn style_sheets_are_validated_by_their_tokens() {
    let css = "/* url(comment.png) */ @import 'gone.css'; a { content: 'url(text.png)'; b: url(img/ok.gif) }";
    let mut site = Site::new(
        &[
            ("style.css", css),
            ("index.html", &format!("<style>{css}</style>")),
            ("other.html", r#"<p style="b: url(&quot;gone.png&quot;)"></p>"#),
        ],
        &["img/ok.gif"],
    );
    let missing = site.validate().missing;
    assert_eq!(
        missing.iter().map(|link| link.href.as_str()).collect::<Vec<_>>(),
        vec!["gone.css", "gone.css", "gone.png"]
    );
    assert_eq!(site.remove_resources(), 3);
    assert_eq!(site.sources[0].1, css.replace("'gone.css'", "\"\""));
    assert!(site.validate().missing.is_empty());
}

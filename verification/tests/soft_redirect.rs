use webarchive_downloader_rust::soft_redirect::{
    is_soft_redirect_html, is_unusable_html_capture,
};

/// Full phpBB templates must not hide missing-content messages behind CSS/navigation.
#[test]
fn detects_structured_forum_errors_in_large_templates() {
    for message in [
        "The topic or post you requested does not exist",
        "Sorry, but that user does not exist.",
        "The forum you selected does not exist.",
    ] {
        let html = format!("<html><head><style>{}</style></head><body><nav>{}</nav><table><tr><td align='center'><span class='gen'>{message}</span></td></tr></table></body></html>", "body {{ color: black; }}".repeat(100), "Navigation ".repeat(100));
        assert!(is_unusable_html_capture(&html), "{message}");
    }
}

/// A user's quotation of a forum error is content, not a failed capture.
#[test]
fn keeps_discussions_quoting_forum_errors() {
    for container in ["<div class='postbody'>{}</div>", "<blockquote>{}</blockquote>"] {
        let html = container.replace("{}", "<table><tr><td align='center'><span class='gen'>The forum you selected does not exist.</span></td></tr></table>");
        assert!(!is_unusable_html_capture(&html));
    }
}

#[test]
fn detects_meta_refresh_redirect() {
    assert!(is_soft_redirect_html(
        r#"<html><head><META HTTP-EQUIV="refresh" CONTENT="0;URL=/cgi-sys/defaultwebpage.cgi"></head><body></body></html>"#
    ));
}

#[test]
fn detects_script_redirect() {
    assert!(is_soft_redirect_html(
        r#"<html><body><script>window.location = "/old";</script></body></html>"#
    ));
}

#[test]
fn does_not_treat_real_content_as_redirect() {
    let body = format!(
        r#"<html><head><meta http-equiv="refresh" content="30;url=/next"></head><body>{}</body></html>"#,
        "real content ".repeat(40)
    );

    assert!(!is_soft_redirect_html(&body));
}

#[test]
fn detects_short_forum_access_denied_placeholder() {
    assert!(is_unusable_html_capture(
        r#"<html><body><h2>Information</h2><p>You are not authorised to read this forum.</p></body></html>"#
    ));
}

#[test]
fn detects_forum_login_wall_placeholder() {
    assert!(is_unusable_html_capture(
        r#"<html><body><form method="post" id="login"><h2>The board requires you to be registered and logged in to view this forum.</h2></form></body></html>"#
    ));
}

#[test]
fn does_not_treat_long_real_content_as_placeholder() {
    let body = format!(
        r#"<html><body><p>You are not authorised to read this forum.</p><p>{}</p></body></html>"#,
        "real discussion content ".repeat(80)
    );

    assert!(!is_unusable_html_capture(&body));
}

#[test]
fn discussions_are_usable_whatever_they_quote() {
    let quoted = "<div class='postbody'><meta http-equiv=\"refresh\" content=\"0;url=/x\">quoted</div>";
    assert!(is_soft_redirect_html(quoted));
    assert!(!is_unusable_html_capture(quoted));
}

#[test]
fn forum_errors_are_read_with_their_entities() {
    let page = |message: &str| {
        format!(
            "<nav>{}</nav><div class='error'>{message}</div>",
            "Navigation ".repeat(100)
        )
    };
    assert!(is_unusable_html_capture(&page(
        "The&nbsp;requested topic &#100;oes not exist."
    )));
    assert!(!is_unusable_html_capture(&page("The requested topic is here.")));
}

use webarchive_downloader_rust::css_refs::{references, replace_tokens};

#[test]
fn discovers_real_css_references() {
    let input = r#"@import /* url(fake) */ 'theme.css'; @media screen { .x { background: URL('image).png'); mask: url(mask\).svg); content: 'url(fake)'; } }"#;
    let refs = references(input);
    assert_eq!(
        refs.iter().map(|reference| reference.value.as_str()).collect::<Vec<_>>(),
        vec!["theme.css", "image).png", "mask).svg"]
    );
    for reference in refs {
        assert!(!input[reference.start..reference.end].is_empty());
    }
}

#[test]
fn escapes_replacement_values() {
    for css in ["url(old)", "url('old')", "@import \"old\";"] {
        let reference = references(css).remove(0);
        let value = "new'\"\\)\n.png";
        let rewritten = format!(
            "{}{}{}",
            &css[..reference.start],
            reference.replacement(value),
            &css[reference.end..]
        );
        assert_eq!(references(&rewritten)[0].value, value);
    }
}

#[test]
fn replacements_are_escaped_for_their_token() {
    let value = "a b'\"\\(\u{1}\u{7f}\u{0}é)";
    let unquoted = references("url(old)").remove(0);
    assert_eq!(
        unquoted.replacement(value),
        "url(a\\20 b\\'\\\"\\\\\\(\\1 \\7f \\0 é\\))"
    );
    assert_eq!(unquoted.emptied(), "url(\"\")");
    let double = references("url(\"old\")").remove(0);
    assert_eq!(
        double.replacement(value),
        "\"a b'\\\"\\\\(\\1 \\7f \u{fffd}é)\""
    );
    assert_eq!(double.emptied(), "\"\"");
    let single = references("url('old')").remove(0);
    assert_eq!(
        single.replacement(value),
        "'a b\\'\\\"\\\\(\\1 \\7f \u{fffd}é)'"
    );
}

#[test]
fn tokens_are_replaced_where_they_stand() {
    let input = "/* é */ @import 'ö.css'; a { b: url( \"ü\" ) url(x) }";
    let refs = references(input);
    let replacements = vec![Some("'1'".to_owned()), None, Some("url(2)".to_owned())];
    assert_eq!(
        replace_tokens(input, &refs, &replacements),
        "/* é */ @import '1'; a { b: url( \"ü\" ) url(2) }"
    );
}

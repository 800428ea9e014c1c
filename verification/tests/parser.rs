use markmv::parser::{find_link_paren, is_external, locate_href_in_slice, parse_links, split_fragment};

#[test]
fn test_inline_links() {
    let content = "See [guide](../docs/guide.md) for details.";
    let file = "/project/src/README.md";
    let links = parse_links(content, file);
    assert_eq!(links.len(), 1);
    assert_eq!(links[0].href, "../docs/guide.md");
    assert_eq!(&content[links[0].start..links[0].end], "../docs/guide.md");
}

#[test]
fn test_image_links() {
    let content = "![diagram](images/fig.png)";
    let links = parse_links(content, "/project/README.md");
    assert_eq!(links.len(), 1);
    assert_eq!(links[0].href, "images/fig.png");
}

#[test]
fn test_external_skipped() {
    let content = "[example](https://example.com)";
    let links = parse_links(content, "/README.md");
    assert!(links.is_empty());
}

#[test]
fn test_anchor_skipped() {
    let content = "[section](#heading)";
    let links = parse_links(content, "/README.md");
    assert!(links.is_empty());
}

#[test]
fn parser_test_fragment_preserved() {
    let (_path, frag) = split_fragment("guide.md#section");
    assert_eq!(frag, Some("#section"));
}

/// Regression: href that also appears as link text must not corrupt the label.
#[test]
fn test_href_same_as_link_text_not_corrupted() {
    let content = "[guide.md](guide.md)";
    let links = parse_links(content, "/project/README.md");
    assert_eq!(links.len(), 1);
    // Must point to the href position, not the label
    assert_eq!(&content[links[0].start..links[0].end], "guide.md");
    // `[guide.md](guide.md)`: `(` is at byte 10, href starts at byte 11
    assert_eq!(links[0].start, 11);
}

/// Link with title: `[text](href "title")` — href position must be correct.
#[test]
fn test_link_with_title() {
    let content = r#"[text](guide.md "the title")"#;
    let links = parse_links(content, "/project/README.md");
    assert_eq!(links.len(), 1);
    assert_eq!(links[0].href, "guide.md");
    assert_eq!(&content[links[0].start..links[0].end], "guide.md");
}

#[test]
fn test_ref_definition() {
    let content = "[guide]: docs/guide.md\n\n[See guide][guide]\n";
    let links = parse_links(content, "/project/README.md");
    // Only the definition should be collected (not the usage, which has no inline href)
    assert_eq!(links.len(), 1);
    assert_eq!(links[0].href, "docs/guide.md");
    assert_eq!(&content[links[0].start..links[0].end], "docs/guide.md");
}

#[test]
fn links_resolve_against_the_file_directory() {
    let content = "[a](../docs/guide.md#intro)";
    let links = parse_links(content, "/project/src/README.md");
    assert_eq!(links.len(), 1);
    assert_eq!(links[0].resolved.as_deref(), Some("/project/docs/guide.md"));
}

#[test]
fn links_come_sorted_by_href_offset() {
    // The image's href comes before the enclosing link's href in the text.
    let content = "[![logo](logo.png)](home.md)\n\n[ref]: other.md\n";
    let links = parse_links(content, "/p/README.md");
    let hrefs: Vec<&str> = links.iter().map(|l| l.href.as_str()).collect();
    assert_eq!(hrefs, vec!["logo.png", "home.md", "other.md"]);
    for w in links.windows(2) {
        assert!(w[0].start <= w[1].start);
    }
    for l in &links {
        assert_eq!(&content[l.start..l.end], l.href);
    }
}

#[test]
fn ref_definition_after_unicode_whitespace() {
    // Leading non-breaking space and an ideographic space before the href.
    let content = "\u{a0}[id]:\u{3000}é/ü.md trailing";
    let links = parse_links(content, "/p/README.md");
    assert_eq!(links.len(), 1);
    assert_eq!(links[0].href, "é/ü.md");
    assert_eq!(&content[links[0].start..links[0].end], "é/ü.md");
}

#[test]
fn ref_definitions_skip_urls_and_anchors() {
    let content = "[a]: https://x.org\n[b]: #top\n[c]:\n[d]: ok.md\n";
    let links = parse_links(content, "/p/README.md");
    assert_eq!(links.len(), 1);
    assert_eq!(links[0].href, "ok.md");
}

#[test]
fn external_detection() {
    assert!(is_external("https://example.com"));
    assert!(is_external("mailto:a@b.c"));
    assert!(is_external("a+b-c.d:x"));
    assert!(!is_external("docs/guide.md"));
    assert!(!is_external("./a:b"));
    assert!(!is_external("dir/x:y"));
    assert!(!is_external(":x"));
    assert!(!is_external("1a:x"));
    assert!(!is_external("..:x"));
    assert!(is_external("A1:x"));
}

#[test]
fn fragment_split_without_fragment() {
    assert_eq!(split_fragment("guide.md"), ("guide.md", None));
    assert_eq!(split_fragment("#top"), ("", Some("#top")));
    assert_eq!(split_fragment("a#b#c"), ("a", Some("#b#c")));
}

#[test]
fn reference_definitions_alone() {
    let links = markmv::parser::parse_ref_definitions("  [a]: x.md \"t\"\nno\n[b]: ../y.md#z", "/p/q");
    assert_eq!(links.len(), 2);
    assert_eq!(links[0].href, "x.md");
    assert_eq!((links[0].start, links[0].end), (7, 11));
    assert_eq!(links[0].resolved.as_deref(), Some("/p/q/x.md"));
    assert_eq!(links[1].href, "../y.md#z");
    assert_eq!(links[1].resolved.as_deref(), Some("/p/y.md"));
}

#[test]
fn link_paren_and_href_location() {
    assert_eq!(find_link_paren(b"![a](x)"), Some(4));
    assert_eq!(find_link_paren(b"[a [b] c](x)"), Some(9));
    assert_eq!(find_link_paren(b"[a][b]"), None);
    assert_eq!(find_link_paren(b"text"), None);
    assert_eq!(locate_href_in_slice(b"[guide.md](guide.md)", b"guide.md", 0), Some((11, 19)));
    assert_eq!(locate_href_in_slice(b"[t](a.md)", b"a.md", 100), Some((104, 108)));
    assert_eq!(locate_href_in_slice(b"[a.md](<b.md>)", b"c.md", 0), None);
}

#[test]
fn link_paren_follows_the_first_balancing_bracket() {
    assert_eq!(find_link_paren(b"![a [b] c](d)"), Some(10));
    assert_eq!(find_link_paren(b"[a] [b](c)"), None);
    assert_eq!(find_link_paren(b"[[a]](b)"), Some(5));
    assert_eq!(find_link_paren(b"[a"), None);
}

#[test]
fn reference_hrefs_are_tokens_in_order() {
    let content = "[a]: one.md\n[b]:   two.md trailing\n";
    let links = markmv::parser::parse_ref_definitions(content, "/p");
    assert_eq!(links.len(), 2);
    assert_eq!(&content[links[0].start..links[0].end], "one.md");
    assert_eq!(&content[links[1].start..links[1].end], "two.md");
    assert!(links[0].end < links[1].start);
}

#[test]
fn each_link_is_resolved_from_the_file_directory() {
    let content = "[a](x.md#top) and [b](/abs/y.md)";
    let links = parse_links(content, "/p/q/r.md");
    assert_eq!(links.len(), 2);
    assert_eq!(links[0].resolved.as_deref(), Some("/p/q/x.md"));
    assert_eq!(links[1].resolved.as_deref(), Some("/abs/y.md"));
}

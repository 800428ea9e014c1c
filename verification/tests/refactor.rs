use markmv::refactor::{make_relative, normalize_path, rebase_link, resolve_href, retarget_link};

#[test]
fn test_normalize_path() {
    assert_eq!(normalize_path("/a/b/../c/./d"), "/a/c/d");
}

#[test]
fn test_make_relative_sibling() {
    assert_eq!(make_relative("/project/docs", "/project/archive/old.md"), "../archive/old.md");
}

#[test]
fn test_make_relative_child() {
    assert_eq!(make_relative("/project", "/project/docs/guide.md"), "docs/guide.md");
}

#[test]
fn test_resolve_href_relative() {
    let resolved = resolve_href("../README.md", "/project/docs");
    assert_eq!(resolved.as_deref(), Some("/project/README.md"));
}

#[test]
fn test_rebase_link() {
    // File moves from /project/src to /project/archive
    // Link originally pointed to ../docs/guide.md
    let result = rebase_link("../docs/guide.md", "/project/src", "/project/archive");
    assert_eq!(result, "../docs/guide.md");
}

#[test]
fn test_retarget_link() {
    // File at /project/README.md links to docs/old.md
    // old.md moves to /project/archive/old.md
    let result = retarget_link("docs/old.md", "/project", "/project/archive/old.md");
    assert_eq!(result, "./archive/old.md");
}

#[test]
fn refactor_test_fragment_preserved() {
    let result = retarget_link("docs/guide.md#section", "/project", "/project/archive/guide.md");
    assert_eq!(result, "./archive/guide.md#section");
}

#[test]
fn normalize_edge_cases() {
    assert_eq!(normalize_path("/.."), "/..");
    assert_eq!(normalize_path("/../.."), "/../..");
    assert_eq!(normalize_path("../x"), "../x");
    assert_eq!(normalize_path("../.."), "../..");
    assert_eq!(normalize_path("../../x"), "../../x");
    assert_eq!(normalize_path("a/../../b"), "../b");
    assert_eq!(normalize_path("/a/../b"), "/b");
    assert_eq!(normalize_path("./a//b/"), "a/b");
    assert_eq!(normalize_path(""), "");
    assert_eq!(normalize_path("/"), "/");
}

#[test]
fn make_relative_edge_cases() {
    assert_eq!(make_relative("/a/b", "/a/b"), ".");
    assert_eq!(make_relative("/a/b/c", "/a"), "../..");
    assert_eq!(make_relative("rel", "/abs/x"), "/abs/x");
}

#[test]
fn resolve_href_none_cases() {
    assert_eq!(resolve_href("", "/p"), None);
    assert_eq!(resolve_href("#top", "/p"), None);
    assert_eq!(resolve_href("http://x", "/p"), None);
    assert_eq!(resolve_href("/abs/./y.md#f", "/p").as_deref(), Some("/abs/y.md"));
}

#[test]
fn rebase_and_retarget_round_trip() {
    // The rebased link, read from the new directory, leads to the same file.
    let new_href = rebase_link("../other.md#x", "/root/docs", "/root/a/b");
    assert_eq!(new_href, "../../other.md#x");
    assert_eq!(resolve_href(&new_href, "/root/a/b").as_deref(), Some("/root/other.md"));
    let moved = retarget_link("old.md", "/root", "/root/new/place.md");
    assert_eq!(resolve_href(&moved, "/root").as_deref(), Some("/root/new/place.md"));
}

#[test]
fn rebase_keeps_links_that_lead_nowhere() {
    assert_eq!(rebase_link("#top", "/a", "/b"), "#top");
    assert_eq!(rebase_link("https://x.org/a", "/a", "/b"), "https://x.org/a");
}

#[test]
fn backslashes_become_slashes() {
    assert_eq!(retarget_link("x.md", "/p", "/p/a\\b.md"), "./a/b.md");
}

#[test]
fn relative_path_leads_back() {
    for (from, to) in [
        ("/project/docs", "/project/archive/old.md"),
        ("/a/b/c", "/a"),
        ("/a", "/a/b/c.md"),
        ("/", "/x/y"),
        ("/x/y", "/x/y"),
    ] {
        let rel = make_relative(from, to);
        assert_eq!(resolve_href(&rel, from).as_deref(), Some(to), "{from} -> {to} via {rel}");
    }
}

#[test]
fn normalize_twice_is_normalize_once() {
    for p in ["/a/b/../c/./d", "../../x/..", "/../a/./b/", "./x//y/../z", "", ".", "/"] {
        let once = normalize_path(p);
        assert_eq!(normalize_path(&once), once, "{p}");
    }
}

#[test]
fn retarget_keeps_colon_names_from_reading_as_urls() {
    let href = retarget_link("x.md", "/p", "/p/a:b.md");
    assert_eq!(href, "./a:b.md");
    assert_eq!(resolve_href(&href, "/p").as_deref(), Some("/p/a:b.md"));
}

#[test]
fn normalize_twice_keeps_unmatched_parents() {
    for p in ["../..", "a/../../b", "/a/./b/../../..", "./x/", "/../a/../b"] {
        let once = normalize_path(p);
        assert_eq!(normalize_path(&once), once);
    }
}

#[test]
fn rebased_link_keeps_a_target_above_the_root() {
    let result = rebase_link("../../x.md", "/a", "/b/c");
    assert_eq!(result, "../../../x.md");
    assert_eq!(resolve_href("../../x.md", "/a").as_deref(), Some("/../x.md"));
    assert_eq!(resolve_href(&result, "/b/c").as_deref(), Some("/../x.md"));
}

#[test]
fn retargeted_link_to_a_target_above_the_root() {
    let result = retarget_link("old.md#s", "/a", "/../t.md");
    assert_eq!(result, "../../t.md#s");
    assert_eq!(resolve_href("../../t.md", "/a").as_deref(), Some("/../t.md"));
}

#[test]
fn scheme_like_first_name_is_written_as_a_path() {
    let result = retarget_link("x.md", "/a", "/a/..:b/t.md");
    assert_eq!(result, "..:b/t.md");
    assert_eq!(resolve_href(&result, "/a").as_deref(), Some("/a/..:b/t.md"));
}

use markmv::ops::{
    apply_replacements, build_move_pairs, build_report, display_relative, is_markdown_path,
    lookup_move, normalize_moves, plan_file, replacements_fit_in, sort_and_dedup, MoveError,
    Replacement,
};

/// Plans and applies a move over in-memory files, as `move_files` does on
/// disk; returns the new contents of every file and the report.
fn simulate(
    files: &[(&str, &str)],
    moves: &[(&str, &str)],
) -> (Vec<(String, String)>, markmv::ops::MoveReport) {
    let moves: Vec<(String, String)> =
        moves.iter().map(|(s, d)| (s.to_string(), d.to_string())).collect();
    let moves = normalize_moves(&moves);
    let mut plans = Vec::new();
    for (path, content) in files {
        plans.push((path.to_string(), plan_file(path, content, &moves)));
    }
    let report = build_report(&plans, moves.len());
    let mut out = Vec::new();
    for ((path, content), (_, reps)) in files.iter().zip(plans.into_iter()) {
        let reps = sort_and_dedup(reps);
        assert!(replacements_fit_in(content, &reps));
        out.push((path.to_string(), apply_replacements(content, &reps)));
    }
    (out, report)
}

fn content_of<'a>(files: &'a [(String, String)], path: &str) -> &'a str {
    &files.iter().find(|(p, _)| p == path).unwrap().1
}

#[test]
fn plan_other_file_link_updated() {
    let (files, report) = simulate(
        &[("/r/index.md", "[guide](docs/guide.md)\n"), ("/r/docs/guide.md", "# Guide\n")],
        &[("/r/docs/guide.md", "/r/archive/guide.md")],
    );
    let index = content_of(&files, "/r/index.md");
    assert!(index.contains("archive/guide.md"));
    assert!(!index.contains("docs/guide.md"));
    assert_eq!(report.files_moved, 1);
    assert_eq!(report.links_updated, 1);
    assert_eq!(report.file_reports.len(), 1);
    assert_eq!(report.file_reports[0].path, "/r/index.md");
    assert_eq!(report.file_reports[0].changes[0].old_href, "docs/guide.md");
}

#[test]
fn plan_bare_link_style_preserved() {
    let (files, _) = simulate(
        &[("/r/index.md", "[g](guide.md)\n"), ("/r/guide.md", "# Guide\n")],
        &[("/r/guide.md", "/r/docs/guide.md")],
    );
    let index = content_of(&files, "/r/index.md");
    assert!(index.contains("docs/guide.md") && !index.contains("./docs/guide.md"));
}

#[test]
fn plan_dot_slash_style_preserved() {
    let (files, _) = simulate(
        &[("/r/index.md", "[g](./guide.md)\n"), ("/r/guide.md", "# Guide\n")],
        &[("/r/guide.md", "/r/docs/guide.md")],
    );
    assert!(content_of(&files, "/r/index.md").contains("./docs/guide.md"));
}

#[test]
fn plan_self_links_rebased() {
    let (files, _) = simulate(
        &[("/r/docs/guide.md", "[other](../other.md)\n"), ("/r/other.md", "# Other\n")],
        &[("/r/docs/guide.md", "/r/a/b/guide.md")],
    );
    assert_eq!(content_of(&files, "/r/docs/guide.md"), "[other](../../other.md)\n");
}

#[test]
fn plan_both_files_moving() {
    let (files, report) = simulate(
        &[("/r/src/a.md", "[b](b.md)\n"), ("/r/src/b.md", "# B\n")],
        &[("/r/src/a.md", "/r/out/a.md"), ("/r/src/b.md", "/r/out/b.md")],
    );
    assert_eq!(content_of(&files, "/r/src/a.md"), "[b](b.md)\n");
    assert_eq!(report.links_updated, 0);
    assert_eq!(report.files_moved, 2);
}

#[test]
fn plan_fragment_preserved_after_rewrite() {
    let (files, _) = simulate(
        &[("/r/index.md", "[sec](docs/guide.md#section)\n"), ("/r/docs/guide.md", "# G\n")],
        &[("/r/docs/guide.md", "/r/archive/guide.md")],
    );
    assert!(content_of(&files, "/r/index.md").contains("archive/guide.md#section"));
}

#[test]
fn plan_href_in_link_text_not_corrupted() {
    let (files, _) = simulate(
        &[("/r/index.md", "[guide.md](guide.md)\n"), ("/r/guide.md", "# Guide\n")],
        &[("/r/guide.md", "/r/docs/guide.md")],
    );
    let index = content_of(&files, "/r/index.md");
    assert!(index.starts_with("[guide.md]("));
    assert!(index.contains("docs/guide.md"));
}

#[test]
fn report_sorted_by_path_components() {
    // "/r/a.b.md" sorts before "/r/a/x.md" as text, after it by components.
    let (_, report) = simulate(
        &[("/r/a.b.md", "[t](t.md)\n"), ("/r/a/x.md", "[t](../t.md)\n"), ("/r/t.md", "")],
        &[("/r/t.md", "/r/z/t.md")],
    );
    let paths: Vec<&str> = report.file_reports.iter().map(|r| r.path.as_str()).collect();
    assert_eq!(paths, vec!["/r/a/x.md", "/r/a.b.md"]);
    assert_eq!(report.links_updated, 2);
}

#[test]
fn unicode_text_around_links_is_kept() {
    let (files, _) = simulate(
        &[("/r/i.md", "ünï [ç](c.md) — done\n"), ("/r/c.md", "")],
        &[("/r/c.md", "/r/d/c.md")],
    );
    assert_eq!(content_of(&files, "/r/i.md"), "ünï [ç](d/c.md) — done\n");
}

#[test]
fn apply_replacements_in_order() {
    let reps = vec![
        Replacement { start: 8, end: 9, new_href: "YY".into(), old_href: "y".into() },
        Replacement { start: 1, end: 2, new_href: "XXX".into(), old_href: "x".into() },
        Replacement { start: 1, end: 2, new_href: "dup".into(), old_href: "x".into() },
    ];
    let reps = sort_and_dedup(reps);
    assert_eq!(reps.len(), 2);
    assert_eq!(reps[0].new_href, "XXX");
    assert!(replacements_fit_in("[x] and y", &reps));
    assert_eq!(apply_replacements("[x] and y", &reps), "[XXX] and YY");
}

#[test]
fn apply_replacements_in_any_order() {
    let reps = vec![
        Replacement { start: 8, end: 9, new_href: "YY".into(), old_href: "y".into() },
        Replacement { start: 1, end: 2, new_href: "XXX".into(), old_href: "x".into() },
    ];
    assert!(replacements_fit_in("[x] and y", &reps));
    assert_eq!(apply_replacements("[x] and y", &reps), "[XXX] and YY");
    let swapped = vec![
        Replacement { start: 1, end: 2, new_href: "XXX".into(), old_href: "x".into() },
        Replacement { start: 8, end: 9, new_href: "YY".into(), old_href: "y".into() },
    ];
    let out = apply_replacements("[x] and y", &swapped);
    assert_eq!(out, "[XXX] and YY");
    assert_eq!(out.len(), "[x] and y".len() + (3 - 1) + (2 - 1));
    assert_eq!(apply_replacements("[x] and y", &Vec::new()), "[x] and y");
}

#[test]
fn replacements_sharing_a_start_do_not_fit() {
    let reps = vec![
        Replacement { start: 1, end: 2, new_href: "a".into(), old_href: "x".into() },
        Replacement { start: 1, end: 2, new_href: "b".into(), old_href: "x".into() },
    ];
    assert!(!replacements_fit_in("[x]", &reps));
}

#[test]
fn replacements_that_overlap_do_not_fit() {
    let reps = vec![
        Replacement { start: 0, end: 3, new_href: "a".into(), old_href: "abc".into() },
        Replacement { start: 2, end: 4, new_href: "b".into(), old_href: "cd".into() },
    ];
    assert!(!replacements_fit_in("abcdef", &reps));
    let reversed = vec![
        Replacement { start: 2, end: 4, new_href: "b".into(), old_href: "cd".into() },
        Replacement { start: 0, end: 3, new_href: "a".into(), old_href: "abc".into() },
    ];
    assert!(!replacements_fit_in("abcdef", &reversed));
    let inside_char = vec![Replacement { start: 1, end: 2, new_href: "x".into(), old_href: "".into() }];
    assert!(!replacements_fit_in("é", &inside_char));
}

#[test]
fn move_pairs_into_directory() {
    let sources = vec!["/r/a.md".to_string(), "/r/sub/b.md".to_string()];
    let pairs = build_move_pairs(&sources, "/r/out", false, true).unwrap();
    assert_eq!(
        pairs,
        vec![
            ("/r/a.md".to_string(), "/r/out/a.md".to_string()),
            ("/r/sub/b.md".to_string(), "/r/out/b.md".to_string())
        ]
    );
    let single = build_move_pairs(&sources[..1].to_vec(), "/r/new.md", false, false).unwrap();
    assert_eq!(single, vec![("/r/a.md".to_string(), "/r/new.md".to_string())]);
    let dry = build_move_pairs(&sources, "/r/out/", true, false).unwrap();
    assert_eq!(dry[1].1, "/r/out/b.md");
}

#[test]
fn move_pairs_errors() {
    let sources = vec!["/r/a.md".to_string(), "/r/b.md".to_string()];
    match build_move_pairs(&sources, "/r/file.md", false, false) {
        Err(MoveError::NotADirectory { dest }) => assert_eq!(dest, "/r/file.md"),
        _ => panic!("expected an error"),
    }
    match build_move_pairs(&vec!["/".to_string()], "/r/out", false, true) {
        Err(MoveError::NoFileName { source }) => assert_eq!(source, "/"),
        _ => panic!("expected an error"),
    }
}

#[test]
fn markdown_paths() {
    assert!(is_markdown_path("/r/a.md"));
    assert!(is_markdown_path("x.y.md"));
    assert!(!is_markdown_path("/r/.md"));
    assert!(!is_markdown_path("/r/a.mdx"));
    assert!(!is_markdown_path("/r/md"));
    assert!(!is_markdown_path("/r/a.md/.."));
}

#[test]
fn display_paths_relative_to_base() {
    assert_eq!(display_relative("/r", "/r/docs/a.md"), "docs/a.md");
    assert_eq!(display_relative("/r", "/other/a.md"), "/other/a.md");
    assert_eq!(display_relative("/r/x", "/r"), "/r");
}

#[test]
fn moves_are_looked_up_by_components() {
    let moves = vec![
        ("/a/b.md".to_string(), "/x.md".to_string()),
        ("/a//b.md".to_string(), "/y.md".to_string()),
    ];
    assert_eq!(lookup_move(&moves, "/a/./b.md").as_deref(), Some("/y.md"));
    assert_eq!(lookup_move(&moves, "/a/c.md"), None);
}

#[test]
fn plan_links_between_files_moving_apart() {
    let (files, report) = simulate(
        &[("/r/src/a.md", "[b](b.md#top) [c](../c.md)\n"), ("/r/src/b.md", ""), ("/r/c.md", "")],
        &[("/r/src/a.md", "/r/x/a.md"), ("/r/src/b.md", "/r/y/b.md")],
    );
    let a = content_of(&files, "/r/src/a.md");
    assert_eq!(a, "[b](../y/b.md#top) [c](../c.md)\n");
    assert_eq!(
        markmv::refactor::resolve_href("../y/b.md#top", "/r/x").as_deref(),
        Some("/r/y/b.md")
    );
    assert_eq!(report.links_updated, 1);
}

#[test]
fn plan_unaffected_links_are_left_alone() {
    let (files, report) = simulate(
        &[("/r/a.md", "[b](b.md) [w](https://x.org) [s](#sec)\n"), ("/r/b.md", "")],
        &[("/r/c.md", "/r/d.md")],
    );
    assert_eq!(content_of(&files, "/r/a.md"), "[b](b.md) [w](https://x.org) [s](#sec)\n");
    assert!(report.file_reports.is_empty());
    assert_eq!(report.links_updated, 0);
}

#[test]
fn default_file_report_is_empty() {
    let r = markmv::ops::FileReport::default();
    assert!(r.path.is_empty() && r.changes.is_empty());
}

#[test]
fn report_groups_a_file_once_in_ascending_path_order() {
    let rep = |s: usize, old: &str, new: &str| Replacement {
        start: s,
        end: s + old.len(),
        new_href: new.into(),
        old_href: old.into(),
    };
    let plans = vec![
        ("/r/b.md".to_string(), vec![rep(0, "x", "y")]),
        ("/r/a.md".to_string(), vec![rep(3, "p", "q")]),
        ("/r//b.md".to_string(), vec![rep(9, "m", "n")]),
        ("/r/c.md".to_string(), Vec::new()),
    ];
    let report = build_report(&plans, 1);
    let paths: Vec<&str> = report.file_reports.iter().map(|r| r.path.as_str()).collect();
    assert_eq!(paths, vec!["/r/a.md", "/r/b.md"]);
    assert_eq!(report.file_reports[1].changes.len(), 2);
    assert_eq!(report.links_updated, 3);
    for r in &report.file_reports {
        for c in &r.changes {
            assert_ne!(c.old_href, c.new_href);
        }
    }
}

#[test]
fn every_link_reaches_its_target_after_a_move() {
    let (files, _) = simulate(
        &[
            ("/r/docs/a.md", "[b](b.md#s) [c](../c.md) [x](https://x.org)\n[r]: ./b.md\n"),
            ("/r/docs/b.md", "[a](a.md)"),
            ("/r/c.md", "[b](docs/b.md)"),
        ],
        &[("/r/docs/a.md", "/r/out/a.md"), ("/r/docs/b.md", "/r/b.md")],
    );
    assert_eq!(
        content_of(&files, "/r/docs/a.md"),
        "[b](../b.md#s) [c](../c.md) [x](https://x.org)\n[r]: ../b.md\n"
    );
    assert_eq!(content_of(&files, "/r/docs/b.md"), "[a](out/a.md)");
    assert_eq!(content_of(&files, "/r/c.md"), "[b](b.md)");
}

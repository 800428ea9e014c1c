//! Planning a move: which hrefs of which files change, the report of those
//! changes, and the new text of a file once they are made.

use vstd::prelude::*;
use crate::parser::{
    document_links, links_view, markdown_events, parse_links, path_part, spec_is_external, fragment,
    is_external_chars, Link, LinkView, MarkdownEventView, found_at, law_links_found_in_order,
};
use crate::path::{
    components, comps_view, parent_dir, parent_dir_chars, path_components, PathComponent, Comp,
    is_normal_absolute, relative_path, is_absolute,
};
use crate::refactor::{
    rebased_href, resolve_href_chars, resolved_href, retargeted_href, starts_with,
    path_part_chars, rebase_link, retarget_link, href_for, lemma_href_for_resolves,
    lemma_fragment_shape, writable_relative, lemma_resolved_is_normal_absolute,
    lemma_resolved_path_part,
};
use crate::text::{string_from_chars, to_chars};

verus! {

/// A single link replacement to apply to a file's contents.
pub struct Replacement {
    pub start: usize,
    pub end: usize,
    pub new_href: String,
    pub old_href: String,
}

/// A replacement as a mathematical value.
pub struct ReplacementView {
    pub start: int,
    pub end: int,
    pub new_href: Seq<char>,
    pub old_href: Seq<char>,
}

impl View for Replacement {
    type V = ReplacementView;

    open spec fn view(&self) -> ReplacementView {
        ReplacementView {
            start: self.start as int,
            end: self.end as int,
            new_href: self.new_href@,
            old_href: self.old_href@,
        }
    }
}

/// The mathematical values of a run of replacements.
pub open spec fn reps_view(v: Seq<Replacement>) -> Seq<ReplacementView> {
    v.map_values(|r: Replacement| r@)
}

/// A list of moves, each from a source path to a destination path.
pub open spec fn moves_view(v: Seq<(String, String)>) -> Seq<(Seq<char>, Seq<char>)> {
    v.map_values(|m: (String, String)| (m.0@, m.1@))
}

/// Where the file at `p` moves to: the destination of the last move whose
/// source is the same path (component for component), if any.
pub open spec fn move_target(moves: Seq<(Seq<char>, Seq<char>)>, p: Seq<char>) -> Option<Seq<char>>
    decreases moves.len(),
{
    if moves.len() == 0 {
        None
    } else if components(moves.last().0) == components(p) {
        Some(moves.last().1)
    } else {
        move_target(moves.drop_last(), p)
    }
}

/// Where the target of a link moves to, if it resolves and moves.
pub open spec fn target_move(moves: Seq<(Seq<char>, Seq<char>)>, resolved: Option<Seq<char>>) -> Option<Seq<char>> {
    match resolved {
        Some(r) => move_target(moves, r),
        None => None,
    }
}

/// A rewritten href in the style of the old one: a `./` that the rewrite put
/// in front of an href that had none is taken off again, unless the href
/// would then read as an absolute URL.
pub open spec fn keep_link_style(old: Seq<char>, new: Seq<char>) -> Seq<char> {
    if starts_with(new, seq!['.', '/']) && !starts_with(old, seq!['.', '/']) && !spec_is_external(
        new.skip(2),
    ) {
        new.skip(2)
    } else {
        new
    }
}

/// The replacement of a link's href by `new`, where that changes it.
pub open spec fn replacement_if_changed(l: LinkView, new: Seq<char>) -> Option<ReplacementView> {
    if new != l.href {
        Some(ReplacementView { start: l.start, end: l.end, new_href: new, old_href: l.href })
    } else {
        None
    }
}

/// The replacement, if any, that a link of the file `md_file` needs when the
/// files of `moves` move:
/// - where the file itself moves and the link's target moves too, the href
///   is computed from the file's new directory to the target's new place;
/// - where only the file moves, a link with a path part that resolves is
///   rebased from the old directory to the new one;
/// - where only the target moves, the href is computed from the file's
///   directory to the target's new place.
/// The new href keeps the style of the old one.
pub open spec fn link_replacement(
    md_file: Seq<char>,
    l: LinkView,
    moves: Seq<(Seq<char>, Seq<char>)>,
) -> Option<ReplacementView> {
    let dir = parent_dir(md_file);
    match move_target(moves, md_file) {
        Some(new_src) => {
            let new_dir = parent_dir(new_src);
            match target_move(moves, l.resolved) {
                Some(t) => replacement_if_changed(
                    l,
                    keep_link_style(l.href, retargeted_href(l.href, new_dir, t)),
                ),
                None => if path_part(l.href).len() > 0 && resolved_href(
                    path_part(l.href),
                    dir,
                ) is Some {
                    replacement_if_changed(
                        l,
                        keep_link_style(l.href, rebased_href(l.href, dir, new_dir)),
                    )
                } else {
                    None
                },
            }
        },
        None => match target_move(moves, l.resolved) {
            Some(t) => replacement_if_changed(
                l,
                keep_link_style(l.href, retargeted_href(l.href, dir, t)),
            ),
            None => None,
        },
    }
}

/// The replacements that the links of `md_file` need, in the order of the
/// links.
pub open spec fn links_replacements(
    md_file: Seq<char>,
    links: Seq<LinkView>,
    moves: Seq<(Seq<char>, Seq<char>)>,
) -> Seq<ReplacementView>
    decreases links.len(),
{
    if links.len() == 0 {
        seq![]
    } else {
        links_replacements(md_file, links.drop_last(), moves) + match link_replacement(
            md_file,
            links.last(),
            moves,
        ) {
            Some(r) => seq![r],
            None => seq![],
        }
    }
}

/// Whether two lists of components are the same.
pub fn same_components(a: &Vec<PathComponent>, b: &Vec<PathComponent>) -> (eq: bool)
    ensures
        eq == (comps_view(a@) == comps_view(b@)),
{
    if a.len() != b.len() {
        assert(comps_view(a@).len() != comps_view(b@).len());
        return false;
    }
    for i in 0..a.len()
        invariant
            a@.len() == b@.len(),
            forall|k: int| 0 <= k < i ==> a@[k]@ == b@[k]@,
    {
        if !a[i].same(&b[i]) {
            assert(comps_view(a@)[i as int] != comps_view(b@)[i as int]);
            return false;
        }
    }
    assert(comps_view(a@) =~= comps_view(b@));
    true
}

/// Where the file at `p` moves to.
pub fn lookup_move(moves: &Vec<(String, String)>, p: &str) -> (res: Option<String>)
    ensures
        opt_chars(res) == move_target(moves_view(moves@), p@),
{
    let ghost mv = moves_view(moves@);
    let pc = path_components(&to_chars(p));
    let mut i = moves.len();
    assert(mv.take(i as int) =~= mv);
    while i > 0
        invariant
            i <= moves@.len(),
            mv == moves_view(moves@),
            comps_view(pc@) == components(p@),
            move_target(mv.take(i as int), p@) == move_target(mv, p@),
        decreases i,
    {
        let src = path_components(&to_chars(moves[i - 1].0.as_str()));
        assert(mv.take(i as int).last() == mv[i - 1]);
        if same_components(&src, &pc) {
            return Some(moves[i - 1].1.clone());
        }
        assert(mv.take(i as int).drop_last() =~= mv.take(i - 1));
        i -= 1;
    }
    None
}

/// The characters of an optional string.
pub open spec fn opt_chars(s: Option<String>) -> Option<Seq<char>> {
    match s {
        Some(t) => Some(t@),
        None => None,
    }
}

/// Where the target of a link moves to.
pub fn lookup_target_move(moves: &Vec<(String, String)>, resolved: &Option<String>) -> (res: Option<
    String,
>)
    ensures
        opt_chars(res) == target_move(moves_view(moves@), opt_chars(*resolved)),
{
    match resolved {
        Some(r) => lookup_move(moves, r.as_str()),
        None => None,
    }
}

/// A rewritten href in the style of the old one.
pub fn keep_style(old: &str, new: String) -> (out: String)
    ensures
        out@ == keep_link_style(old@, new@),
{
    let o = to_chars(old);
    let n = to_chars(new.as_str());
    let old_dot = o.len() >= 2 && o[0] == '.' && o[1] == '/';
    let new_dot = n.len() >= 2 && n[0] == '.' && n[1] == '/';
    assert(old_dot == starts_with(o@, seq!['.', '/'])) by {
        if o@.len() >= 2 {
            assert(o@.take(2) =~= seq![o@[0], o@[1]]);
        }
    }
    assert(new_dot == starts_with(n@, seq!['.', '/'])) by {
        if n@.len() >= 2 {
            assert(n@.take(2) =~= seq![n@[0], n@[1]]);
        }
    }
    if new_dot && !old_dot {
        let mut rest: Vec<char> = Vec::new();
        for k in 2..n.len()
            invariant
                2 <= n@.len(),
                rest@ == n@.subrange(2, k as int),
        {
            rest.push(n[k]);
        }
        assert(rest@ =~= n@.skip(2));
        if !is_external_chars(&rest) {
            return string_from_chars(&rest);
        }
    }
    new
}

/// The replacement of a link's href by `new`, where that changes it.
pub fn replace_if_changed(l: &Link, new: String) -> (res: Option<Replacement>)
    ensures
        match res {
            Some(r) => replacement_if_changed(l@, new@) == Some(r@),
            None => replacement_if_changed(l@, new@) is None,
        },
{
    if new != l.href {
        Some(Replacement { start: l.start, end: l.end, new_href: new, old_href: l.href.clone() })
    } else {
        None
    }
}

/// Like `retarget_link` but the source file itself has also moved, so the
/// href is computed from `new_src_dir` to `new_target`: it gives exactly
/// what `retarget_link` gives for the same arguments.
fn retarget_link_from_new_src(href: &str, new_src_dir: &str, new_target: &str) -> (out: String)
    ensures
        out@ == retargeted_href(href@, new_src_dir@, new_target@),
{
    retarget_link(href, new_src_dir, new_target)
}

/// The replacement, if any, that a link of the file `md_file` needs when the
/// files of `moves` move.
pub fn plan_link(md_file: &str, l: &Link, moves: &Vec<(String, String)>) -> (res: Option<Replacement>)
    ensures
        match res {
            Some(r) => link_replacement(md_file@, l@, moves_view(moves@)) == Some(r@),
            None => link_replacement(md_file@, l@, moves_view(moves@)) is None,
        },
{
    let file_chars = to_chars(md_file);
    let dir = parent_dir_chars(&file_chars);
    let dir_str = string_from_chars(&dir);
    match lookup_move(moves, md_file) {
        Some(new_src) => {
            let new_dir = string_from_chars(&parent_dir_chars(&to_chars(new_src.as_str())));
            match lookup_target_move(moves, &l.resolved) {
                Some(t) => {
                    let new_href = retarget_link_from_new_src(
                        l.href.as_str(),
                        new_dir.as_str(),
                        t.as_str(),
                    );
                    replace_if_changed(l, keep_style(l.href.as_str(), new_href))
                },
                None => {
                    let part = path_part_chars(&to_chars(l.href.as_str()));
                    if part.len() > 0 && resolve_href_chars(&part, &dir).is_some() {
                        let new_href = rebase_link(
                            l.href.as_str(),
                            dir_str.as_str(),
                            new_dir.as_str(),
                        );
                        replace_if_changed(l, keep_style(l.href.as_str(), new_href))
                    } else {
                        None
                    }
                },
            }
        },
        None => match lookup_target_move(moves, &l.resolved) {
            Some(t) => {
                let new_href = retarget_link(l.href.as_str(), dir_str.as_str(), t.as_str());
                replace_if_changed(l, keep_style(l.href.as_str(), new_href))
            },
            None => None,
        },
    }
}

/// The replacements that the links of the file `md_file` need when the files
/// of `moves` move, in the order of the links.
pub fn plan_links(md_file: &str, links: &Vec<Link>, moves: &Vec<(String, String)>) -> (reps: Vec<
    Replacement,
>)
    ensures
        reps_view(reps@) == links_replacements(md_file@, links_view(links@), moves_view(moves@)),
{
    let ghost lv = links_view(links@);
    let mut reps: Vec<Replacement> = Vec::new();
    for i in 0..links.len()
        invariant
            lv == links_view(links@),
            reps_view(reps@) == links_replacements(md_file@, lv.take(i as int), moves_view(moves@)),
    {
        assert(lv.take(i + 1).drop_last() =~= lv.take(i as int));
        assert(lv.take(i + 1).last() == links@[i as int]@);
        let ghost before = reps@;
        match plan_link(md_file, &links[i], moves) {
            Some(r) => {
                reps.push(r);
                assert(reps_view(reps@) =~= reps_view(before) + seq![r@]);
            },
            None => {
                assert(reps_view(reps@) =~= reps_view(before) + Seq::<ReplacementView>::empty());
            },
        }
    }
    assert(lv.take(links.len() as int) =~= lv);
    reps
}

/// The replacements that the markdown file `md_file`, whose text is
/// `content`, needs when the files of `moves` (normalized paths) move: its
/// links, found as `parse_links` finds them, each planned as `plan_link`
/// plans it.
pub fn plan_file(md_file: &str, content: &str, moves: &Vec<(String, String)>) -> (reps: Vec<
    Replacement,
>)
    ensures
        reps_view(reps@) == links_replacements(
            md_file@,
            document_links(content@, md_file@, markdown_events(content@)),
            moves_view(moves@),
        ),
{
    let links = parse_links(content, md_file);
    plan_links(md_file, &links, moves)
}

/// A rewritten link in a file's report.
#[derive(Debug, Clone)]
pub struct LinkChange {
    pub old_href: String,
    pub new_href: String,
}

/// Per-file report of what changed.
#[derive(Debug)]
pub struct FileReport {
    pub path: String,
    pub changes: Vec<LinkChange>,
}

impl Default for FileReport {
    fn default() -> (r: FileReport)
        ensures
            r@.path == Seq::<char>::empty(),
            r@.changes == Seq::<LinkChangeView>::empty(),
    {
        let r = FileReport { path: String::new(), changes: Vec::new() };
        assert(changes_view(r.changes@) =~= Seq::<LinkChangeView>::empty());
        r
    }
}

/// Summary of a move.
pub struct MoveReport {
    pub file_reports: Vec<FileReport>,
    pub files_moved: usize,
    pub links_updated: usize,
}

/// A link change as a mathematical value.
pub struct LinkChangeView {
    pub old_href: Seq<char>,
    pub new_href: Seq<char>,
}

/// A file report as a mathematical value.
pub struct FileReportView {
    pub path: Seq<char>,
    pub changes: Seq<LinkChangeView>,
}

impl View for LinkChange {
    type V = LinkChangeView;

    open spec fn view(&self) -> LinkChangeView {
        LinkChangeView { old_href: self.old_href@, new_href: self.new_href@ }
    }
}

/// The mathematical values of a run of link changes.
pub open spec fn changes_view(v: Seq<LinkChange>) -> Seq<LinkChangeView> {
    v.map_values(|c: LinkChange| c@)
}

impl View for FileReport {
    type V = FileReportView;

    open spec fn view(&self) -> FileReportView {
        FileReportView { path: self.path@, changes: changes_view(self.changes@) }
    }
}

/// The mathematical values of a run of file reports.
pub open spec fn reports_view(v: Seq<FileReport>) -> Seq<FileReportView> {
    v.map_values(|r: FileReport| r@)
}

/// The change a replacement reports.
pub open spec fn change_of(r: ReplacementView) -> LinkChangeView {
    LinkChangeView { old_href: r.old_href, new_href: r.new_href }
}

/// The changes a run of replacements reports.
pub open spec fn changes_of(reps: Seq<ReplacementView>) -> Seq<LinkChangeView> {
    reps.map_values(|r: ReplacementView| change_of(r))
}

/// The first report about the same path as `p` (component for component).
pub open spec fn report_index_from(groups: Seq<FileReportView>, p: Seq<char>, i: int) -> Option<int>
    decreases groups.len() - i,
{
    if i < 0 || i >= groups.len() {
        None
    } else if components(groups[i].path) == components(p) {
        Some(i)
    } else {
        report_index_from(groups, p, i + 1)
    }
}

/// Adding the replacements planned for the file `p` to the reports: nothing
/// for none; otherwise their changes go to the end of the report about the
/// same path, or into a new report at the end.
pub open spec fn add_plan(groups: Seq<FileReportView>, p: Seq<char>, reps: Seq<ReplacementView>) -> Seq<FileReportView> {
    if reps.len() == 0 {
        groups
    } else {
        match report_index_from(groups, p, 0) {
            Some(i) => groups.update(
                i,
                FileReportView { path: groups[i].path, changes: groups[i].changes + changes_of(reps) },
            ),
            None => groups.push(FileReportView { path: p, changes: changes_of(reps) }),
        }
    }
}

/// The plans of each file, as mathematical values.
pub open spec fn plans_view(v: Seq<(String, Vec<Replacement>)>) -> Seq<(Seq<char>, Seq<ReplacementView>)> {
    v.map_values(|pl: (String, Vec<Replacement>)| (pl.0@, reps_view(pl.1@)))
}

/// The reports of the files that have changes, in the order in which each
/// first appears among the plans.
pub open spec fn group_plans(plans: Seq<(Seq<char>, Seq<ReplacementView>)>) -> Seq<FileReportView>
    decreases plans.len(),
{
    if plans.len() == 0 {
        seq![]
    } else {
        add_plan(group_plans(plans.drop_last()), plans.last().0, plans.last().1)
    }
}

/// The number of replacements planned in all.
pub open spec fn total_replacements(plans: Seq<(Seq<char>, Seq<ReplacementView>)>) -> int
    decreases plans.len(),
{
    if plans.len() == 0 {
        0
    } else {
        total_replacements(plans.drop_last()) + plans.last().1.len()
    }
}

/// The number of changes in all the reports.
pub open spec fn total_changes(reports: Seq<FileReportView>) -> int
    decreases reports.len(),
{
    if reports.len() == 0 {
        0
    } else {
        total_changes(reports.drop_last()) + reports.last().changes.len()
    }
}

/// The order of component kinds: root, current directory, parent, name.
pub open spec fn comp_rank(c: Comp) -> int {
    match c {
        Comp::Root => 0,
        Comp::Cur => 1,
        Comp::Parent => 2,
        Comp::Normal(_) => 3,
    }
}

/// Whether `a` comes before `b` character by character from position `i`
/// on, a proper prefix coming first.
pub open spec fn chars_lt_from(a: Seq<char>, b: Seq<char>, i: int) -> bool
    decreases a.len() - i,
{
    if i < 0 || i >= b.len() {
        false
    } else if i >= a.len() {
        true
    } else if a[i] != b[i] {
        a[i] < b[i]
    } else {
        chars_lt_from(a, b, i + 1)
    }
}

/// Whether component `a` comes before component `b`: by kind, then names by
/// their characters.
pub open spec fn comp_lt(a: Comp, b: Comp) -> bool {
    if comp_rank(a) != comp_rank(b) {
        comp_rank(a) < comp_rank(b)
    } else {
        match (a, b) {
            (Comp::Normal(x), Comp::Normal(y)) => chars_lt_from(x, y, 0),
            _ => false,
        }
    }
}

/// Whether the components `a` come before `b` from position `i` on, a proper
/// prefix coming first.
pub open spec fn comps_lt_from(a: Seq<Comp>, b: Seq<Comp>, i: int) -> bool
    decreases a.len() - i,
{
    if i < 0 || i >= b.len() {
        false
    } else if i >= a.len() {
        true
    } else if a[i] != b[i] {
        comp_lt(a[i], b[i])
    } else {
        comps_lt_from(a, b, i + 1)
    }
}

/// Whether path `a` comes before path `b`, comparing component by component.
pub open spec fn path_lt(a: Seq<char>, b: Seq<char>) -> bool {
    comps_lt_from(components(a), components(b), 0)
}

/// Inserting a report into reports sorted by path, after every report whose
/// path does not come later.
pub open spec fn insert_by_path(s: Seq<FileReportView>, x: FileReportView) -> Seq<FileReportView>
    decreases s.len(),
{
    if s.len() == 0 {
        seq![x]
    } else if !path_lt(x.path, s.last().path) {
        s.push(x)
    } else {
        insert_by_path(s.drop_last(), x).push(s.last())
    }
}

/// Reports sorted by path, reports with equal paths in the order they came in.
pub open spec fn sort_by_path(s: Seq<FileReportView>) -> Seq<FileReportView>
    decreases s.len(),
{
    if s.len() == 0 {
        s
    } else {
        insert_by_path(sort_by_path(s.drop_last()), s.last())
    }
}

/// The reports of a move: the files with changes, sorted by path.
pub open spec fn planned_reports(plans: Seq<(Seq<char>, Seq<ReplacementView>)>) -> Seq<FileReportView> {
    sort_by_path(group_plans(plans))
}

/// Whether `a` comes before `b` character by character.
pub fn chars_less(a: &Vec<char>, b: &Vec<char>) -> (lt: bool)
    ensures
        lt == chars_lt_from(a@, b@, 0),
{
    let mut i: usize = 0;
    loop
        invariant
            chars_lt_from(a@, b@, 0) == chars_lt_from(a@, b@, i as int),
        decreases a@.len() - i,
    {
        if i >= b.len() {
            return false;
        }
        if i >= a.len() {
            return true;
        }
        if a[i] != b[i] {
            return a[i] < b[i];
        }
        i += 1;
    }
}

/// Where a component stands among the kinds of components.
pub fn comp_rank_of(c: &PathComponent) -> (r: u8)
    ensures
        r as int == comp_rank(c@),
{
    match c {
        PathComponent::RootDir => 0,
        PathComponent::CurDir => 1,
        PathComponent::ParentDir => 2,
        PathComponent::Normal(_) => 3,
    }
}

/// Whether component `a` comes before component `b`.
pub fn comp_less(a: &PathComponent, b: &PathComponent) -> (lt: bool)
    ensures
        lt == comp_lt(a@, b@),
{
    let ra = comp_rank_of(a);
    let rb = comp_rank_of(b);
    if ra != rb {
        return ra < rb;
    }
    match (a, b) {
        (PathComponent::Normal(x), PathComponent::Normal(y)) => chars_less(x, y),
        _ => false,
    }
}

/// Whether the components `a` come before `b`.
pub fn comps_less(a: &Vec<PathComponent>, b: &Vec<PathComponent>) -> (lt: bool)
    ensures
        lt == comps_lt_from(comps_view(a@), comps_view(b@), 0),
{
    let ghost av = comps_view(a@);
    let ghost bv = comps_view(b@);
    let mut i: usize = 0;
    loop
        invariant
            av == comps_view(a@),
            bv == comps_view(b@),
            comps_lt_from(av, bv, 0) == comps_lt_from(av, bv, i as int),
        decreases a@.len() - i,
    {
        if i >= b.len() {
            return false;
        }
        if i >= a.len() {
            return true;
        }
        if !a[i].same(&b[i]) {
            return comp_less(&a[i], &b[i]);
        }
        i += 1;
    }
}

/// The changes that a run of replacements reports, appended to `out`.
pub fn push_changes(out: &mut Vec<LinkChange>, reps: &Vec<Replacement>)
    ensures
        changes_view(final(out)@) == changes_view(old(out)@) + changes_of(reps_view(reps@)),
{
    let ghost start = changes_view(out@);
    let ghost rv = reps_view(reps@);
    for i in 0..reps.len()
        invariant
            rv == reps_view(reps@),
            changes_view(out@) == start + changes_of(rv.take(i as int)),
    {
        let ghost before = out@;
        out.push(LinkChange { old_href: reps[i].old_href.clone(), new_href: reps[i].new_href.clone() });
        assert(changes_of(rv.take(i + 1)) =~= changes_of(rv.take(i as int)).push(change_of(rv[i as int])));
        assert(changes_view(out@) =~= changes_view(before).push(change_of(rv[i as int])));
    }
    assert(rv.take(reps.len() as int) =~= rv);
}

/// The index of the first report about the same path as `p`, if any.
pub fn find_report(groups: &Vec<FileReport>, p: &str) -> (res: Option<usize>)
    ensures
        match res {
            Some(i) => report_index_from(reports_view(groups@), p@, 0) == Some(i as int) && i
                < groups@.len(),
            None => report_index_from(reports_view(groups@), p@, 0) is None,
        },
{
    let ghost gv = reports_view(groups@);
    let pc = path_components(&to_chars(p));
    let mut i: usize = 0;
    while i < groups.len()
        invariant
            gv == reports_view(groups@),
            comps_view(pc@) == components(p@),
            report_index_from(gv, p@, 0) == report_index_from(gv, p@, i as int),
        decreases groups@.len() - i,
    {
        let gc = path_components(&to_chars(groups[i].path.as_str()));
        if same_components(&gc, &pc) {
            return Some(i);
        }
        i += 1;
    }
    None
}

/// Inserting a report after every report whose path does not come later.
pub fn insert_report(reports: &mut Vec<FileReport>, x: FileReport)
    ensures
        reports_view(final(reports)@) == insert_by_path(reports_view(old(reports)@), x@),
{
    let ghost s = reports_view(reports@);
    let xc = path_components(&to_chars(x.path.as_str()));
    let mut p = reports.len();
    loop
        invariant
            p <= reports@.len(),
            s == reports_view(reports@),
            comps_view(xc@) == components(x@.path),
            forall|k: int| p <= k < s.len() ==> path_lt(x@.path, #[trigger] s[k].path),
        ensures
            p <= reports@.len(),
            s == reports_view(reports@),
            forall|k: int| p <= k < s.len() ==> path_lt(x@.path, #[trigger] s[k].path),
            p == 0 || !path_lt(x@.path, s[p - 1].path),
        decreases p,
    {
        if p == 0 {
            break;
        }
        let pc = path_components(&to_chars(reports[p - 1].path.as_str()));
        if !comps_less(&xc, &pc) {
            break;
        }
        p -= 1;
    }
    proof {
        lemma_insert_by_path(s, x@, p as int);
    }
    reports.insert(p, x);
    assert(reports_view(reports@) =~= s.take(p as int).push(x@) + s.skip(p as int));
}

/// Inserting at the place found by scanning back from the end.
pub proof fn lemma_insert_by_path(s: Seq<FileReportView>, x: FileReportView, p: int)
    requires
        0 <= p <= s.len(),
        p == 0 || !path_lt(x.path, s[p - 1].path),
        forall|k: int| p <= k < s.len() ==> path_lt(x.path, #[trigger] s[k].path),
    ensures
        insert_by_path(s, x) == s.take(p).push(x) + s.skip(p),
    decreases s.len(),
{
    if s.len() == 0 {
        assert(s.take(p).push(x) + s.skip(p) =~= seq![x]);
    } else if !path_lt(x.path, s.last().path) {
        assert(p == s.len()) by {
            if p < s.len() {
                assert(path_lt(x.path, s[s.len() - 1].path));
            }
        }
        assert(s.take(p).push(x) + s.skip(p) =~= s.push(x));
    } else {
        let s1 = s.drop_last();
        assert(p < s.len()) by {
            if p == s.len() {
                assert(s[p - 1] == s.last());
            }
        }
        lemma_insert_by_path(s1, x, p);
        assert((s1.take(p).push(x) + s1.skip(p)).push(s.last()) =~= s.take(p).push(x) + s.skip(p));
    }
}

/// Builds the report of a move from what was planned for each file: the
/// files with changes, each with the changes of all its plans in order,
/// sorted by path (component by component); the number of files moved; and
/// the number of links updated.
pub fn build_report(plans: &Vec<(String, Vec<Replacement>)>, files_moved: usize) -> (report: MoveReport)
    requires
        total_replacements(plans_view(plans@)) <= usize::MAX,
    ensures
        reports_view(report.file_reports@) == planned_reports(plans_view(plans@)),
        report.files_moved == files_moved,
        report.links_updated == total_replacements(plans_view(plans@)),
        report.links_updated == total_changes(reports_view(report.file_reports@)),
{
    proof {
        law_links_updated_counts_changes(plans_view(plans@));
    }
    let ghost pv = plans_view(plans@);
    let mut groups: Vec<FileReport> = Vec::new();
    let mut count: usize = 0;
    for i in 0..plans.len()
        invariant
            pv == plans_view(plans@),
            total_replacements(pv) <= usize::MAX,
            reports_view(groups@) == group_plans(pv.take(i as int)),
            count == total_replacements(pv.take(i as int)),
    {
        let ghost prev = pv.take(i as int);
        assert(pv.take(i + 1).drop_last() =~= prev);
        assert(pv.take(i + 1).last() == pv[i as int]);
        proof {
            lemma_total_replacements_prefix(pv, i + 1);
        }
        let path = &plans[i].0;
        let reps = &plans[i].1;
        count = count + reps.len();
        if reps.len() > 0 {
            match find_report(&groups, path.as_str()) {
                Some(k) => {
                    let ghost before = reports_view(groups@);
                    let mut g = groups.remove(k);
                    push_changes(&mut g.changes, reps);
                    groups.insert(k, g);
                    assert(reports_view(groups@) =~= before.update(
                        k as int,
                        FileReportView {
                            path: before[k as int].path,
                            changes: before[k as int].changes + changes_of(reps_view(reps@)),
                        },
                    ));
                },
                None => {
                    let ghost before = reports_view(groups@);
                    let mut changes: Vec<LinkChange> = Vec::new();
                    push_changes(&mut changes, reps);
                    assert(changes_view(changes@) =~= changes_of(reps_view(reps@)));
                    groups.push(FileReport { path: path.clone(), changes });
                    assert(reports_view(groups@) =~= before.push(
                        FileReportView { path: path@, changes: changes_of(reps_view(reps@)) },
                    ));
                },
            }
        }
    }
    assert(pv.take(plans.len() as int) =~= pv);
    let ghost grouped = reports_view(groups@);
    let n = groups.len();
    let mut sorted: Vec<FileReport> = Vec::new();
    let mut remaining = groups;
    let mut i: usize = 0;
    assert(grouped.take(0) =~= Seq::<FileReportView>::empty());
    assert(grouped.skip(0) =~= grouped);
    while i < n
        invariant
            n == grouped.len(),
            i <= n,
            remaining@.len() == n - i,
            reports_view(remaining@) == grouped.skip(i as int),
            reports_view(sorted@) == sort_by_path(grouped.take(i as int)),
        decreases n - i,
    {
        let ghost before = remaining@;
        let x = remaining.remove(0);
        assert(x@ == reports_view(before)[0]);
        assert(reports_view(before)[0] == grouped[i as int]);
        assert(remaining@ =~= before.skip(1));
        assert(reports_view(before.skip(1)) =~= reports_view(before).skip(1));
        assert(reports_view(before).skip(1) =~= grouped.skip(i + 1));
        assert(grouped.take(i + 1).drop_last() =~= grouped.take(i as int));
        insert_report(&mut sorted, x);
        i += 1;
    }
    assert(grouped.take(n as int) =~= grouped);
    MoveReport { file_reports: sorted, files_moved, links_updated: count }
}

/// Every prefix of the plans holds at most as many replacements as all of
/// them.
pub proof fn lemma_total_replacements_prefix(pv: Seq<(Seq<char>, Seq<ReplacementView>)>, i: int)
    requires
        0 <= i <= pv.len(),
    ensures
        total_replacements(pv.take(i)) <= total_replacements(pv),
    decreases pv.len() - i,
{
    if i < pv.len() {
        lemma_total_replacements_prefix(pv, i + 1);
        assert(pv.take(i + 1).drop_last() =~= pv.take(i));
    } else {
        assert(pv.take(i) =~= pv);
    }
}

/// The text of `b` with each replacement's range replaced by the UTF-8 bytes
/// of its new href, from offset `cur` on.
pub open spec fn splice_from(b: Seq<u8>, reps: Seq<ReplacementView>, cur: int) -> Seq<u8>
    decreases reps.len(),
{
    if reps.len() == 0 {
        b.subrange(cur, b.len() as int)
    } else {
        b.subrange(cur, reps[0].start) + vstd::utf8::encode_utf8(reps[0].new_href) + splice_from(
            b,
            reps.drop_first(),
            reps[0].end,
        )
    }
}

/// Whether replacements can be made in the text `b`: each range lies in the
/// text with both ends on character boundaries, and each range ends before
/// the next one starts.
pub open spec fn replacements_fit(b: Seq<u8>, reps: Seq<ReplacementView>) -> bool {
    &&& forall|i: int| 0 <= i < reps.len() ==> range_fits(b, #[trigger] reps[i])
    &&& forall|i: int| 1 <= i < reps.len() ==> reps[i - 1].end <= #[trigger] reps[i].start
}

/// Whether a replacement's range lies in the text `b` with both ends on
/// character boundaries.
pub open spec fn range_fits(b: Seq<u8>, r: ReplacementView) -> bool {
    &&& 0 <= r.start <= r.end <= b.len()
    &&& vstd::utf8::is_char_boundary(b, r.start)
    &&& vstd::utf8::is_char_boundary(b, r.end)
}

/// Encoding joined characters joins their encodings.
pub proof fn lemma_encode_utf8_concat(a: Seq<char>, c: Seq<char>)
    ensures
        vstd::utf8::encode_utf8(a + c) == vstd::utf8::encode_utf8(a) + vstd::utf8::encode_utf8(c),
    decreases a.len(),
{
    if a.len() == 0 {
        assert(a + c =~= c);
        assert(Seq::<u8>::empty() + vstd::utf8::encode_utf8(c) =~= vstd::utf8::encode_utf8(c));
    } else {
        assert((a + c).drop_first() =~= a.drop_first() + c);
        assert((a + c)[0] == a[0]);
        lemma_encode_utf8_concat(a.drop_first(), c);
        let e = vstd::utf8::encode_scalar(a[0] as u32);
        assert(e + (vstd::utf8::encode_utf8(a.drop_first()) + vstd::utf8::encode_utf8(c)) =~= (e
            + vstd::utf8::encode_utf8(a.drop_first())) + vstd::utf8::encode_utf8(c));
    }
}

/// The part of `content` between the byte offsets `x` and `y`.
pub fn byte_range_str(content: &str, x: usize, y: usize) -> (piece: &str)
    requires
        x <= y <= vstd::utf8::encode_utf8(content@).len(),
        vstd::utf8::is_char_boundary(vstd::utf8::encode_utf8(content@), x as int),
        vstd::utf8::is_char_boundary(vstd::utf8::encode_utf8(content@), y as int),
    ensures
        vstd::utf8::encode_utf8(piece@) == vstd::utf8::encode_utf8(content@).subrange(x as int, y as int),
{
    let ghost b = vstd::utf8::encode_utf8(content@);
    proof {
        vstd::utf8::encode_utf8_valid_utf8(content@);
        crate::parser::lemma_boundary_in_prefix(b, y as int, x as int);
    }
    let (head, _) = content.split_at(y);
    let (_, piece) = head.split_at(x);
    assert(vstd::utf8::encode_utf8(piece@) =~= b.subrange(x as int, y as int));
    piece
}

/// Replacements made in the order given, each range ending before the next
/// one starts: each range of bytes is replaced by the new href, the rest of
/// the text is kept.
fn splice_in_order(content: &str, reps: &Vec<Replacement>) -> (out: String)
    requires
        replacements_fit(vstd::utf8::encode_utf8(content@), reps_view(reps@)),
    ensures
        vstd::utf8::encode_utf8(out@) == splice_from(vstd::utf8::encode_utf8(content@), reps_view(reps@), 0),
{
    let ghost b = vstd::utf8::encode_utf8(content@);
    let ghost rv = reps_view(reps@);
    let len = content.as_bytes().len();
    proof {
        vstd::utf8::encode_utf8_valid_utf8(content@);
        vstd::utf8::is_char_boundary_start_end_of_seq(b);
    }
    let mut out = String::new();
    let mut cur: usize = 0;
    assert(rv.skip(0) =~= rv);
    for i in 0..reps.len()
        invariant
            len == b.len(),
            b == vstd::utf8::encode_utf8(content@),
            rv == reps_view(reps@),
            replacements_fit(b, rv),
            cur <= len,
            vstd::utf8::is_char_boundary(b, cur as int),
            i < rv.len() ==> cur <= rv[i as int].start,
            vstd::utf8::encode_utf8(out@) + splice_from(b, rv.skip(i as int), cur as int)
                == splice_from(b, rv, 0),
    {
        let r = &reps[i];
        assert(rv[i as int] == r@);
        let piece = byte_range_str(content, cur, r.start);
        let ghost before = out@;
        out.append(piece);
        out.append(r.new_href.as_str());
        proof {
            lemma_encode_utf8_concat(before, piece@);
            lemma_encode_utf8_concat(before + piece@, r.new_href@);
            assert(rv.skip(i as int).drop_first() =~= rv.skip(i + 1));
            assert(rv.skip(i as int)[0] == rv[i as int]);
            if i + 1 < rv.len() {
                assert(rv[i + 1].start >= rv[i as int].end);
            }
        }
        cur = r.end;
    }
    let piece = byte_range_str(content, cur, len);
    let ghost before = out@;
    out.append(piece);
    proof {
        lemma_encode_utf8_concat(before, piece@);
        assert(rv.skip(rv.len() as int) =~= Seq::<ReplacementView>::empty());
    }
    out
}

/// Whether two replacements neither start at the same offset nor overlap.
pub open spec fn ranges_apart(r: ReplacementView, q: ReplacementView) -> bool {
    r.start != q.start && (r.end <= q.start || q.end <= r.start)
}

/// Whether replacements can be made in the text `b`, in whatever order they
/// come: each range lies in the text with both ends on character
/// boundaries, and no two start at the same offset or overlap.
pub open spec fn replacements_disjoint(b: Seq<u8>, reps: Seq<ReplacementView>) -> bool {
    &&& forall|i: int| 0 <= i < reps.len() ==> range_fits(b, #[trigger] reps[i])
    &&& forall|i: int, j: int|
        0 <= i < reps.len() && 0 <= j < reps.len() && i != j ==> ranges_apart(
            #[trigger] reps[i],
            #[trigger] reps[j],
        )
}

/// Apply a list of replacements to `content`: each range of bytes is
/// replaced by the new href, the rest of the text is kept. The replacements
/// may come in any order; they are made in the order of their starts.
pub fn apply_replacements(content: &str, reps: &Vec<Replacement>) -> (out: String)
    requires
        replacements_disjoint(vstd::utf8::encode_utf8(content@), reps_view(reps@)),
    ensures
        vstd::utf8::encode_utf8(out@) == splice_from(
            vstd::utf8::encode_utf8(content@),
            sort_reps_by_start(reps_view(reps@)),
            0,
        ),
{
    let sorted = sorted_by_start(reps);
    proof {
        lemma_disjoint_sorted_fit(vstd::utf8::encode_utf8(content@), reps_view(reps@));
    }
    splice_in_order(content, &sorted)
}

/// Whether the replacements can be made in `content`.
pub fn replacements_fit_in(content: &str, reps: &Vec<Replacement>) -> (fit: bool)
    ensures
        fit == replacements_disjoint(vstd::utf8::encode_utf8(content@), reps_view(reps@)),
{
    let ghost b = vstd::utf8::encode_utf8(content@);
    let ghost rv = reps_view(reps@);
    let len = content.as_bytes().len();
    let n = reps.len();
    for i in 0..n
        invariant
            len == b.len(),
            n == rv.len(),
            b == vstd::utf8::encode_utf8(content@),
            rv == reps_view(reps@),
            forall|k: int| 0 <= k < i ==> range_fits(b, #[trigger] rv[k]),
            forall|k: int, l: int|
                0 <= k < i && 0 <= l < n && k != l ==> ranges_apart(#[trigger] rv[k], #[trigger] rv[l]),
    {
        let r = &reps[i];
        assert(rv[i as int] == r@);
        if !(r.start <= r.end && r.end <= len && content.is_char_boundary(r.start)
            && content.is_char_boundary(r.end)) {
            assert(!range_fits(b, rv[i as int]));
            return false;
        }
        for j in 0..n
            invariant
                n == rv.len(),
                rv == reps_view(reps@),
                i < n,
                r@ == rv[i as int],
                forall|l: int| 0 <= l < j && l != i ==> ranges_apart(rv[i as int], #[trigger] rv[l]),
        {
            let q = &reps[j];
            assert(rv[j as int] == q@);
            if j != i && !(r.start != q.start && (r.end <= q.start || q.end <= r.start)) {
                assert(!ranges_apart(rv[i as int], rv[j as int]));
                return false;
            }
        }
        assert forall|k: int, l: int|
            0 <= k < i + 1 && 0 <= l < n && k != l implies ranges_apart(#[trigger] rv[k], #[trigger] rv[l]) by {
            if k == i {
                assert(ranges_apart(rv[i as int], rv[l]));
            }
        }
    }
    true
}

impl Replacement {
    /// A copy of this replacement.
    pub fn copy(&self) -> (r: Replacement)
        ensures
            r@ == self@,
    {
        Replacement {
            start: self.start,
            end: self.end,
            new_href: self.new_href.clone(),
            old_href: self.old_href.clone(),
        }
    }
}

/// Copies of replacements, sorted by start, in the order they came in where
/// they start at the same offset.
pub fn sorted_by_start(reps: &Vec<Replacement>) -> (out: Vec<Replacement>)
    ensures
        reps_view(out@) == sort_reps_by_start(reps_view(reps@)),
{
    let ghost all = reps_view(reps@);
    let n = reps.len();
    let mut sorted: Vec<Replacement> = Vec::new();
    assert(all.take(0) =~= Seq::<ReplacementView>::empty());
    for i in 0..n
        invariant
            n == all.len(),
            all == reps_view(reps@),
            reps_view(sorted@) == sort_reps_by_start(all.take(i as int)),
    {
        let x = reps[i].copy();
        assert(x@ == all[i as int]);
        assert(all.take(i + 1).drop_last() =~= all.take(i as int));
        assert(all.take(i + 1).last() == all[i as int]);
        let ghost s = reps_view(sorted@);
        let mut p = sorted.len();
        while p > 0 && sorted[p - 1].start > x.start
            invariant
                p <= sorted@.len(),
                s == reps_view(sorted@),
                forall|k: int| p <= k < s.len() ==> #[trigger] s[k].start > x@.start,
            decreases p,
        {
            p -= 1;
        }
        proof {
            lemma_insert_rep_by_start(s, x@, p as int);
        }
        sorted.insert(p, x);
        assert(reps_view(sorted@) =~= s.take(p as int).push(x@) + s.skip(p as int));
    }
    assert(all.take(n as int) =~= all);
    sorted
}

/// Inserting a replacement after every replacement that does not start
/// later.
pub open spec fn insert_rep_by_start(s: Seq<ReplacementView>, x: ReplacementView) -> Seq<ReplacementView>
    decreases s.len(),
{
    if s.len() == 0 {
        seq![x]
    } else if s.last().start <= x.start {
        s.push(x)
    } else {
        insert_rep_by_start(s.drop_last(), x).push(s.last())
    }
}

/// Replacements sorted by start, in the order they came in where they start
/// at the same offset.
pub open spec fn sort_reps_by_start(s: Seq<ReplacementView>) -> Seq<ReplacementView>
    decreases s.len(),
{
    if s.len() == 0 {
        s
    } else {
        insert_rep_by_start(sort_reps_by_start(s.drop_last()), s.last())
    }
}

/// Replacements with every one that starts where the one kept before it
/// starts dropped.
pub open spec fn dedup_by_start(s: Seq<ReplacementView>) -> Seq<ReplacementView>
    decreases s.len(),
{
    if s.len() == 0 {
        s
    } else {
        let d = dedup_by_start(s.drop_last());
        if d.len() > 0 && d.last().start == s.last().start {
            d
        } else {
            d.push(s.last())
        }
    }
}

/// Inserting at the place found by scanning back from the end.
pub proof fn lemma_insert_rep_by_start(s: Seq<ReplacementView>, x: ReplacementView, p: int)
    requires
        0 <= p <= s.len(),
        p == 0 || s[p - 1].start <= x.start,
        forall|k: int| p <= k < s.len() ==> #[trigger] s[k].start > x.start,
    ensures
        insert_rep_by_start(s, x) == s.take(p).push(x) + s.skip(p),
    decreases s.len(),
{
    if s.len() == 0 {
        assert(s.take(p).push(x) + s.skip(p) =~= seq![x]);
    } else if s.last().start <= x.start {
        assert(p == s.len()) by {
            if p < s.len() {
                assert(s[s.len() - 1].start > x.start);
            }
        }
        assert(s.take(p).push(x) + s.skip(p) =~= s.push(x));
    } else {
        let s1 = s.drop_last();
        assert(p < s.len()) by {
            if p == s.len() {
                assert(s[p - 1] == s.last());
            }
        }
        lemma_insert_rep_by_start(s1, x, p);
        assert((s1.take(p).push(x) + s1.skip(p)).push(s.last()) =~= s.take(p).push(x) + s.skip(p));
    }
}

/// The replacements of a file in the order in which they are made: sorted by
/// start, and where several start at the same offset, only the first kept.
pub fn sort_and_dedup(reps: Vec<Replacement>) -> (out: Vec<Replacement>)
    ensures
        reps_view(out@) == dedup_by_start(sort_reps_by_start(reps_view(reps@))),
{
    let ghost all = reps_view(reps@);
    let n = reps.len();
    let mut sorted: Vec<Replacement> = Vec::new();
    let mut remaining = reps;
    let mut i: usize = 0;
    assert(all.take(0) =~= Seq::<ReplacementView>::empty());
    assert(all.skip(0) =~= all);
    while i < n
        invariant
            n == all.len(),
            i <= n,
            remaining@.len() == n - i,
            reps_view(remaining@) == all.skip(i as int),
            reps_view(sorted@) == sort_reps_by_start(all.take(i as int)),
        decreases n - i,
    {
        let ghost before = remaining@;
        let x = remaining.remove(0);
        assert(x@ == reps_view(before)[0]);
        assert(reps_view(before)[0] == all[i as int]);
        assert(remaining@ =~= before.skip(1));
        assert(reps_view(before.skip(1)) =~= reps_view(before).skip(1));
        assert(reps_view(before).skip(1) =~= all.skip(i + 1));
        assert(all.take(i + 1).drop_last() =~= all.take(i as int));
        let ghost s = reps_view(sorted@);
        let mut p = sorted.len();
        while p > 0 && sorted[p - 1].start > x.start
            invariant
                p <= sorted@.len(),
                s == reps_view(sorted@),
                forall|k: int| p <= k < s.len() ==> #[trigger] s[k].start > x@.start,
            decreases p,
        {
            p -= 1;
        }
        proof {
            lemma_insert_rep_by_start(s, x@, p as int);
        }
        sorted.insert(p, x);
        assert(reps_view(sorted@) =~= s.take(p as int).push(x@) + s.skip(p as int));
        i += 1;
    }
    assert(all.take(n as int) =~= all);
    let ghost ss = reps_view(sorted@);
    let mut out: Vec<Replacement> = Vec::new();
    let mut rest = sorted;
    let m = rest.len();
    let mut j: usize = 0;
    assert(ss.take(0) =~= Seq::<ReplacementView>::empty());
    assert(ss.skip(0) =~= ss);
    while j < m
        invariant
            m == ss.len(),
            j <= m,
            rest@.len() == m - j,
            reps_view(rest@) == ss.skip(j as int),
            reps_view(out@) == dedup_by_start(ss.take(j as int)),
        decreases m - j,
    {
        let ghost before = rest@;
        let x = rest.remove(0);
        assert(x@ == reps_view(before)[0]);
        assert(reps_view(before)[0] == ss[j as int]);
        assert(rest@ =~= before.skip(1));
        assert(reps_view(before.skip(1)) =~= reps_view(before).skip(1));
        assert(reps_view(before).skip(1) =~= ss.skip(j + 1));
        assert(ss.take(j + 1).drop_last() =~= ss.take(j as int));
        let ghost kept = out@;
        if out.len() > 0 && out[out.len() - 1].start == x.start {
            assert(reps_view(out@).last() == out@[out@.len() - 1]@);
        } else {
            out.push(x);
            assert(reps_view(out@) =~= reps_view(kept).push(x@));
        }
        j += 1;
    }
    assert(ss.take(m as int) =~= ss);
    out
}

/// Why a list of moves cannot be made.
#[derive(Debug)]
pub enum MoveError {
    /// Several sources, and a destination that is not a directory.
    NotADirectory { dest: String },
    /// A source whose path ends in no file name.
    NoFileName { source: String },
}

/// A move error as a mathematical value.
pub enum MoveErrorView {
    NotADirectory { dest: Seq<char> },
    NoFileName { source: Seq<char> },
}

impl View for MoveError {
    type V = MoveErrorView;

    open spec fn view(&self) -> MoveErrorView {
        match self {
            MoveError::NotADirectory { dest } => MoveErrorView::NotADirectory { dest: dest@ },
            MoveError::NoFileName { source } => MoveErrorView::NoFileName { source: source@ },
        }
    }
}

/// The file name of a path: its last component, where that is a name.
pub open spec fn file_name(s: Seq<char>) -> Option<Seq<char>> {
    let cs = components(s);
    if cs.len() > 0 {
        match cs.last() {
            Comp::Normal(n) => Some(n),
            _ => None,
        }
    } else {
        None
    }
}

/// Whether the destination of a move is taken for a directory: one that is
/// a directory on disk, or, in a dry run (where it may not exist yet), one
/// written with a trailing `/`.
pub open spec fn dest_taken_as_dir(dest: Seq<char>, dry_run: bool, is_dir_on_disk: bool) -> bool {
    if dry_run {
        (dest.len() > 0 && dest.last() == '/') || is_dir_on_disk
    } else {
        is_dir_on_disk
    }
}

/// The move of one source: into the destination directory under its own
/// file name, or onto the destination itself.
pub open spec fn pair_for(src: Seq<char>, dest: Seq<char>, as_dir: bool) -> Result<(Seq<char>, Seq<char>), MoveErrorView> {
    if as_dir {
        match file_name(src) {
            Some(n) => Ok((src, crate::path::join_path(dest, n))),
            None => Err(MoveErrorView::NoFileName { source: src }),
        }
    } else {
        Ok((src, dest))
    }
}

/// The moves of the sources, in order; the first source that has no file
/// name stops them.
pub open spec fn pairs_for(srcs: Seq<Seq<char>>, dest: Seq<char>, as_dir: bool) -> Result<Seq<(Seq<char>, Seq<char>)>, MoveErrorView>
    decreases srcs.len(),
{
    if srcs.len() == 0 {
        Ok(seq![])
    } else {
        match pairs_for(srcs.drop_last(), dest, as_dir) {
            Err(e) => Err(e),
            Ok(ps) => match pair_for(srcs.last(), dest, as_dir) {
                Err(e) => Err(e),
                Ok(p) => Ok(ps.push(p)),
            },
        }
    }
}

/// The `(source, destination)` pairs of moving `sources` to `dest`: an error
/// where there are several sources and the destination is not taken for a
/// directory; otherwise the pairs of the sources.
pub open spec fn move_pairs(srcs: Seq<Seq<char>>, dest: Seq<char>, dry_run: bool, is_dir_on_disk: bool) -> Result<Seq<(Seq<char>, Seq<char>)>, MoveErrorView> {
    let as_dir = dest_taken_as_dir(dest, dry_run, is_dir_on_disk);
    if srcs.len() > 1 && !as_dir {
        Err(MoveErrorView::NotADirectory { dest })
    } else {
        pairs_for(srcs, dest, as_dir)
    }
}

/// The characters of a run of strings.
pub open spec fn strings_view(v: Seq<String>) -> Seq<Seq<char>> {
    v.map_values(|s: String| s@)
}

/// An error stops the moves of every longer run of sources.
pub proof fn lemma_pairs_for_err(srcs: Seq<Seq<char>>, dest: Seq<char>, as_dir: bool, i: int)
    requires
        0 <= i <= srcs.len(),
        pairs_for(srcs.take(i), dest, as_dir) is Err,
    ensures
        pairs_for(srcs, dest, as_dir) == pairs_for(srcs.take(i), dest, as_dir),
    decreases srcs.len() - i,
{
    if i < srcs.len() {
        assert(srcs.take(i + 1).drop_last() =~= srcs.take(i));
        lemma_pairs_for_err(srcs, dest, as_dir, i + 1);
    } else {
        assert(srcs.take(i) =~= srcs);
    }
}

/// The file name of a path, if it ends in one.
pub fn path_file_name(s: &str) -> (res: Option<String>)
    ensures
        opt_chars(res) == file_name(s@),
{
    let cs = path_components(&to_chars(s));
    let n = cs.len();
    if n == 0 {
        return None;
    }
    assert(comps_view(cs@).last() == cs@[n - 1]@);
    match &cs[n - 1] {
        PathComponent::Normal(name) => Some(string_from_chars(name)),
        _ => None,
    }
}

/// Construct `(src_abs, dst_abs)` pairs: several sources need a destination
/// taken for a directory, into which each source moves under its own file
/// name; a single source moves onto a destination that is not one.
pub fn build_move_pairs(sources: &Vec<String>, dest: &str, dry_run: bool, is_dir_on_disk: bool) -> (res: Result<Vec<(String, String)>, MoveError>)
    ensures
        match res {
            Ok(pairs) => move_pairs(strings_view(sources@), dest@, dry_run, is_dir_on_disk) == Ok::<Seq<(Seq<char>, Seq<char>)>, MoveErrorView>(moves_view(pairs@)),
            Err(e) => move_pairs(strings_view(sources@), dest@, dry_run, is_dir_on_disk) == Err::<Seq<(Seq<char>, Seq<char>)>, MoveErrorView>(e@),
        },
{
    let ghost sv = strings_view(sources@);
    let d = to_chars(dest);
    let ends_slash = d.len() > 0 && d[d.len() - 1] == '/';
    let as_dir = if dry_run { ends_slash || is_dir_on_disk } else { is_dir_on_disk };
    if sources.len() > 1 && !as_dir {
        return Err(MoveError::NotADirectory { dest: string_from_chars(&d) });
    }
    let mut pairs: Vec<(String, String)> = Vec::new();
    assert(sv.take(0) =~= Seq::<Seq<char>>::empty());
    assert(moves_view(pairs@) =~= Seq::<(Seq<char>, Seq<char>)>::empty());
    for i in 0..sources.len()
        invariant
            sv == strings_view(sources@),
            d@ == dest@,
            as_dir == dest_taken_as_dir(dest@, dry_run, is_dir_on_disk),
            pairs_for(sv.take(i as int), dest@, as_dir) == Ok::<Seq<(Seq<char>, Seq<char>)>, MoveErrorView>(moves_view(pairs@)),
    {
        assert(sv.take(i + 1).drop_last() =~= sv.take(i as int));
        assert(sv.take(i + 1).last() == sources@[i as int]@);
        let src = &sources[i];
        let ghost before = pairs@;
        if as_dir {
            match path_file_name(src.as_str()) {
                Some(name) => {
                    let to = string_from_chars(&crate::path::join_chars(&d, &to_chars(name.as_str())));
                    pairs.push((src.clone(), to));
                    assert(moves_view(pairs@) =~= moves_view(before).push((src@, to@)));
                },
                None => {
                    proof {
                        lemma_pairs_for_err(sv, dest@, as_dir, i + 1);
                    }
                    assert(sv.take(sources@.len() as int) =~= sv);
                    return Err(MoveError::NoFileName { source: src.clone() });
                },
            }
        } else {
            pairs.push((src.clone(), string_from_chars(&d)));
            assert(moves_view(pairs@) =~= moves_view(before).push((src@, dest@)));
        }
    }
    assert(sv.take(sources@.len() as int) =~= sv);
    Ok(pairs)
}

/// A path shown relative to `base` where `base` is a prefix of it, component
/// for component (what remains, written out); otherwise as it is.
pub open spec fn shown_relative(base: Seq<char>, path: Seq<char>) -> Seq<char> {
    let cb = components(base);
    let cp = components(path);
    if cb.len() <= cp.len() && cp.take(cb.len() as int) == cb {
        crate::path::render(cp.skip(cb.len() as int))
    } else {
        path
    }
}

/// Display a path relative to `base` if possible, otherwise absolute.
pub fn display_relative(base: &str, path: &str) -> (out: String)
    ensures
        out@ == shown_relative(base@, path@),
{
    let cb = path_components(&to_chars(base));
    let cp = path_components(&to_chars(path));
    let ghost vb = comps_view(cb@);
    let ghost vp = comps_view(cp@);
    assert(vb.len() == cb@.len() && vp.len() == cp@.len());
    if cb.len() > cp.len() {
        return string_from_chars(&to_chars(path));
    }
    for k in 0..cb.len()
        invariant
            vb == comps_view(cb@),
            vp == comps_view(cp@),
            vb == components(base@),
            vp == components(path@),
            cb@.len() <= cp@.len(),
            forall|j: int| 0 <= j < k ==> vb[j] == vp[j],
    {
        if !cb[k].same(&cp[k]) {
            assert(vb[k as int] == cb@[k as int]@);
            assert(vp[k as int] == cp@[k as int]@);
            assert(vp.take(vb.len() as int)[k as int] != vb[k as int]);
            assert(vp.take(vb.len() as int) != vb);
            return string_from_chars(&to_chars(path));
        }
    }
    assert(vp.take(vb.len() as int) =~= vb);
    let mut rest: Vec<PathComponent> = Vec::new();
    for j in cb.len()..cp.len()
        invariant
            vp == comps_view(cp@),
            cb@.len() <= j <= cp@.len(),
            comps_view(rest@) == vp.subrange(cb@.len() as int, j as int),
    {
        let ghost before = rest@;
        rest.push(cp[j].copy());
        assert(comps_view(rest@) =~= comps_view(before).push(vp[j as int]));
        assert(vp.subrange(cb@.len() as int, j + 1) =~= vp.subrange(cb@.len() as int, j as int).push(vp[j as int]));
    }
    assert(vp.subrange(cb@.len() as int, cp@.len() as int) =~= vp.skip(cb@.len() as int));
    string_from_chars(&crate::path::render_components(&rest))
}

/// The last position at or before `i` where `s` holds `c`.
pub open spec fn last_index_from(s: Seq<char>, c: char, i: int) -> Option<int>
    decreases i + 1,
{
    if i < 0 || i >= s.len() {
        None
    } else if s[i] == c {
        Some(i)
    } else {
        last_index_from(s, c, i - 1)
    }
}

/// The extension of a file name: what follows its last `.`, where that dot
/// is not the first character.
pub open spec fn extension(name: Seq<char>) -> Option<Seq<char>> {
    match last_index_from(name, '.', name.len() - 1) {
        Some(i) => if i > 0 {
            Some(name.skip(i + 1))
        } else {
            None
        },
        None => None,
    }
}

/// Whether a path names a markdown file: its file name has the extension
/// `md`.
pub open spec fn is_markdown(s: Seq<char>) -> bool {
    match file_name(s) {
        Some(n) => extension(n) == Some(seq!['m', 'd']),
        None => false,
    }
}

/// Whether the path names a markdown file (extension `md`).
pub fn is_markdown_path(s: &str) -> (b: bool)
    ensures
        b == is_markdown(s@),
{
    let fname = path_file_name(s);
    let name = match fname {
        Some(n) => to_chars(n.as_str()),
        None => return false,
    };
    assert(file_name(s@) == Some(name@));
    let n = name.len();
    if n == 0 {
        assert(last_index_from(name@, '.', -1) is None);
        return false;
    }
    let mut i: usize = n - 1;
    loop
        invariant
            n == name@.len(),
            i < n,
            file_name(s@) == Some(name@),
            last_index_from(name@, '.', (n - 1) as int) == last_index_from(name@, '.', i as int),
        ensures
            n == name@.len(),
            i < n,
            name@[i as int] == '.',
            file_name(s@) == Some(name@),
            last_index_from(name@, '.', (n - 1) as int) == Some(i as int),
        decreases i,
    {
        if name[i] == '.' {
            break;
        }
        if i == 0 {
            assert(last_index_from(name@, '.', -1) is None);
            return false;
        }
        i -= 1;
    }
    if i == 0 {
        return false;
    }
    let ok = n - i - 1 == 2 && name[i + 1] == 'm' && name[i + 2] == 'd';
    proof {
        let ext = name@.skip(i + 1);
        let md = seq!['m', 'd'];
        if ext.len() == 2 {
            if ext[0] == 'm' && ext[1] == 'd' {
                assert(ext =~= md);
            }
        }
        if !ok {
            assert(ext != md) by {
                if ext == md {
                    assert(ext.len() == 2 && ext[0] == 'm' && ext[1] == 'd');
                }
            }
        }
    }
    ok
}

/// A path from the command line, made absolute against the working
/// directory `cwd` where it is relative, and normalized.
pub fn absolute_path(cwd: &str, p: &str) -> (out: String)
    ensures
        out@ == crate::path::normalized(crate::path::join_path(cwd@, p@)),
{
    let joined = crate::path::join_chars(&to_chars(cwd), &to_chars(p));
    string_from_chars(&crate::refactor::normalize_chars(&joined))
}

/// The moves with both paths of each normalized.
pub open spec fn normalized_moves(moves: Seq<(Seq<char>, Seq<char>)>) -> Seq<(Seq<char>, Seq<char>)> {
    moves.map_values(|m: (Seq<char>, Seq<char>)| (crate::path::normalized(m.0), crate::path::normalized(m.1)))
}

/// Normalize all move paths.
pub fn normalize_moves(moves: &Vec<(String, String)>) -> (out: Vec<(String, String)>)
    ensures
        moves_view(out@) == normalized_moves(moves_view(moves@)),
{
    let ghost mv = moves_view(moves@);
    let mut out: Vec<(String, String)> = Vec::new();
    for i in 0..moves.len()
        invariant
            mv == moves_view(moves@),
            moves_view(out@) == normalized_moves(mv.take(i as int)),
    {
        let ghost before = out@;
        let s = crate::path::normalize_path(moves[i].0.as_str());
        let d = crate::path::normalize_path(moves[i].1.as_str());
        out.push((s, d));
        assert(normalized_moves(mv.take(i + 1)) =~= normalized_moves(mv.take(i as int)).push(
            (crate::path::normalized(mv[i as int].0), crate::path::normalized(mv[i as int].1)),
        ));
        assert(moves_view(out@) =~= moves_view(before).push((s@, d@)));
    }
    assert(mv.take(moves.len() as int) =~= mv);
    out
}

/// The href a link of the file `md_file` has once the files of `moves`
/// moved: the planned one where a replacement is planned, the old one
/// otherwise.
pub open spec fn href_after_move(md_file: Seq<char>, l: LinkView, moves: Seq<(Seq<char>, Seq<char>)>) -> Seq<char> {
    match link_replacement(md_file, l, moves) {
        Some(r) => r.new_href,
        None => l.href,
    }
}

/// The href written for a link from directory `dir` to `target`, in the style
/// of `old`, leads from `dir` to `target` and keeps the fragment.
pub proof fn lemma_styled_href_resolves(old: Seq<char>, dir: Seq<char>, target: Seq<char>, frag: Option<Seq<char>>)
    requires
        is_normal_absolute(dir),
        is_normal_absolute(target),
        writable_relative(dir, target),
        frag matches Some(f) ==> f.len() > 0 && f[0] == '#',
    ensures
        resolved_href(keep_link_style(old, href_for(relative_path(dir, target), frag)), dir) == Some(target),
        fragment(keep_link_style(old, href_for(relative_path(dir, target), frag))) == frag,
{
    lemma_href_for_resolves(dir, target, frag);
}

/// A link in a file that stays, to a file that moves, leads to the moved
/// file's new place once the move is planned, and keeps its fragment.
pub proof fn law_link_to_moved_file(md_file: Seq<char>, l: LinkView, moves: Seq<(Seq<char>, Seq<char>)>, target: Seq<char>)
    requires
        move_target(moves, md_file) is None,
        target_move(moves, l.resolved) == Some(target),
        is_normal_absolute(parent_dir(md_file)),
        is_normal_absolute(target),
        writable_relative(parent_dir(md_file), target),
    ensures
        resolved_href(href_after_move(md_file, l, moves), parent_dir(md_file)) == Some(target),
        fragment(href_after_move(md_file, l, moves)) == fragment(l.href),
{
    lemma_fragment_shape(l.href);
    lemma_styled_href_resolves(l.href, parent_dir(md_file), target, fragment(l.href));
}

/// A link between two files that both move leads, from the new place of
/// the file that holds it, to the new place of its target, and keeps its
/// fragment.
pub proof fn law_link_between_moved_files(md_file: Seq<char>, l: LinkView, moves: Seq<(Seq<char>, Seq<char>)>, new_src: Seq<char>, target: Seq<char>)
    requires
        move_target(moves, md_file) == Some(new_src),
        target_move(moves, l.resolved) == Some(target),
        is_normal_absolute(parent_dir(new_src)),
        is_normal_absolute(target),
        writable_relative(parent_dir(new_src), target),
    ensures
        resolved_href(href_after_move(md_file, l, moves), parent_dir(new_src)) == Some(target),
        fragment(href_after_move(md_file, l, moves)) == fragment(l.href),
{
    lemma_fragment_shape(l.href);
    lemma_styled_href_resolves(l.href, parent_dir(new_src), target, fragment(l.href));
}

/// A link in a file that moves, to a file that stays, leads from the new
/// place where it led from the old one, and keeps its fragment.
pub proof fn law_link_in_moved_file(md_file: Seq<char>, l: LinkView, moves: Seq<(Seq<char>, Seq<char>)>, new_src: Seq<char>, target: Seq<char>)
    requires
        move_target(moves, md_file) == Some(new_src),
        target_move(moves, l.resolved) is None,
        resolved_href(path_part(l.href), parent_dir(md_file)) == Some(target),
        is_absolute(parent_dir(md_file)),
        is_normal_absolute(parent_dir(new_src)),
        writable_relative(parent_dir(new_src), target),
    ensures
        resolved_href(href_after_move(md_file, l, moves), parent_dir(new_src)) == Some(target),
        fragment(href_after_move(md_file, l, moves)) == fragment(l.href),
{
    lemma_resolved_is_normal_absolute(path_part(l.href), parent_dir(md_file));
    lemma_fragment_shape(l.href);
    lemma_styled_href_resolves(l.href, parent_dir(new_src), target, fragment(l.href));
}

/// A link in a file that stays, to a file that stays, is left alone.
pub proof fn law_unaffected_link_kept(md_file: Seq<char>, l: LinkView, moves: Seq<(Seq<char>, Seq<char>)>)
    requires
        move_target(moves, md_file) is None,
        target_move(moves, l.resolved) is None,
    ensures
        link_replacement(md_file, l, moves) is None,
{
}

pub proof fn lemma_chars_lt_asym(a: Seq<char>, b: Seq<char>, i: int)
    requires
        0 <= i,
    ensures
        chars_lt_from(a, b, i) ==> !chars_lt_from(b, a, i),
    decreases a.len() - i,
{
    if i < b.len() && i < a.len() && a[i] == b[i] {
        lemma_chars_lt_asym(a, b, i + 1);
    }
}

pub proof fn lemma_comp_lt_asym(a: Comp, b: Comp)
    ensures
        comp_lt(a, b) ==> !comp_lt(b, a),
{
    match (a, b) {
        (Comp::Normal(x), Comp::Normal(y)) => lemma_chars_lt_asym(x, y, 0),
        _ => {},
    }
}

pub proof fn lemma_comps_lt_asym(a: Seq<Comp>, b: Seq<Comp>, i: int)
    requires
        0 <= i,
    ensures
        comps_lt_from(a, b, i) ==> !comps_lt_from(b, a, i),
    decreases a.len() - i,
{
    if i < b.len() && i < a.len() {
        if a[i] == b[i] {
            lemma_comps_lt_asym(a, b, i + 1);
        } else {
            lemma_comp_lt_asym(a[i], b[i]);
        }
    }
}

/// Whether no report's path comes before the path of the report before it.
pub open spec fn sorted_by_path(s: Seq<FileReportView>) -> bool {
    forall|k: int| 0 <= k < s.len() - 1 ==> !path_lt(#[trigger] s[k + 1].path, s[k].path)
}

pub proof fn lemma_insert_by_path_sorted(s: Seq<FileReportView>, x: FileReportView)
    requires
        sorted_by_path(s),
    ensures
        sorted_by_path(insert_by_path(s, x)),
        insert_by_path(s, x).len() == s.len() + 1,
        s.len() > 0 ==> (insert_by_path(s, x).last() == x || insert_by_path(s, x).last() == s.last()),
    decreases s.len(),
{
    let r = insert_by_path(s, x);
    if s.len() == 0 {
    } else if !path_lt(x.path, s.last().path) {
        assert forall|k: int| 0 <= k < r.len() - 1 implies !path_lt(#[trigger] r[k + 1].path, r[k].path) by {
            if k + 1 < s.len() {
                assert(r[k + 1] == s[k + 1] && r[k] == s[k]);
            } else {
                assert(r[k] == s[s.len() - 1]);
            }
        }
    } else {
        let s1 = s.drop_last();
        assert(sorted_by_path(s1)) by {
            assert forall|k: int| 0 <= k < s1.len() - 1 implies !path_lt(#[trigger] s1[k + 1].path, s1[k].path) by {
                assert(s1[k + 1] == s[k + 1] && s1[k] == s[k]);
            }
        }
        lemma_insert_by_path_sorted(s1, x);
        let r1 = insert_by_path(s1, x);
        lemma_comps_lt_asym(components(x.path), components(s.last().path), 0);
        assert forall|k: int| 0 <= k < r.len() - 1 implies !path_lt(#[trigger] r[k + 1].path, r[k].path) by {
            if k + 1 < r1.len() {
                assert(r[k + 1] == r1[k + 1] && r[k] == r1[k]);
            } else {
                assert(r[k] == r1.last());
                if s1.len() > 0 && r1.last() == s1.last() {
                    assert(s[s.len() - 2] == s1.last());
                    assert(!path_lt(s[s.len() - 2 + 1].path, s[s.len() - 2].path));
                }
            }
        }
    }
}

/// The reports of a move come sorted by path: no report's path comes before
/// the path of the report before it.
pub proof fn law_reports_sorted_by_path(plans: Seq<(Seq<char>, Seq<ReplacementView>)>)
    ensures
        sorted_by_path(planned_reports(plans)),
{
    lemma_sort_by_path_sorted(group_plans(plans));
}

pub proof fn lemma_sort_by_path_sorted(s: Seq<FileReportView>)
    ensures
        sorted_by_path(sort_by_path(s)),
    decreases s.len(),
{
    if s.len() > 0 {
        lemma_sort_by_path_sorted(s.drop_last());
        lemma_insert_by_path_sorted(sort_by_path(s.drop_last()), s.last());
    }
}

pub proof fn lemma_total_changes_push(s: Seq<FileReportView>, x: FileReportView)
    ensures
        total_changes(s.push(x)) == total_changes(s) + x.changes.len(),
{
    assert(s.push(x).drop_last() =~= s);
}

pub proof fn lemma_total_changes_update(s: Seq<FileReportView>, i: int, x: FileReportView)
    requires
        0 <= i < s.len(),
    ensures
        total_changes(s.update(i, x)) == total_changes(s) - s[i].changes.len() + x.changes.len(),
    decreases s.len(),
{
    let u = s.update(i, x);
    if i == s.len() - 1 {
        assert(u.drop_last() =~= s.drop_last());
    } else {
        lemma_total_changes_update(s.drop_last(), i, x);
        assert(u.drop_last() =~= s.drop_last().update(i, x));
    }
}

pub proof fn lemma_total_changes_insert(s: Seq<FileReportView>, x: FileReportView)
    ensures
        total_changes(insert_by_path(s, x)) == total_changes(s) + x.changes.len(),
    decreases s.len(),
{
    if s.len() == 0 {
        lemma_total_changes_push(s, x);
        assert(insert_by_path(s, x) =~= s.push(x));
    } else if !path_lt(x.path, s.last().path) {
        lemma_total_changes_push(s, x);
    } else {
        let s1 = s.drop_last();
        lemma_total_changes_insert(s1, x);
        lemma_total_changes_push(insert_by_path(s1, x), s.last());
        assert(total_changes(s) == total_changes(s1) + s.last().changes.len());
    }
}

pub proof fn lemma_total_changes_sort(s: Seq<FileReportView>)
    ensures
        total_changes(sort_by_path(s)) == total_changes(s),
    decreases s.len(),
{
    if s.len() > 0 {
        lemma_total_changes_sort(s.drop_last());
        lemma_total_changes_insert(sort_by_path(s.drop_last()), s.last());
    }
}

pub proof fn lemma_total_changes_group(plans: Seq<(Seq<char>, Seq<ReplacementView>)>)
    ensures
        total_changes(group_plans(plans)) == total_replacements(plans),
    decreases plans.len(),
{
    if plans.len() > 0 {
        let p1 = plans.drop_last();
        lemma_total_changes_group(p1);
        let g = group_plans(p1);
        let (p, reps) = plans.last();
        assert(changes_of(reps).len() == reps.len());
        if reps.len() > 0 {
            match report_index_from(g, p, 0) {
                Some(i) => {
                    lemma_report_index_from(g, p, 0);
                    lemma_total_changes_update(
                        g,
                        i,
                        FileReportView { path: g[i].path, changes: g[i].changes + changes_of(reps) },
                    );
                },
                None => {
                    lemma_total_changes_push(g, FileReportView { path: p, changes: changes_of(reps) });
                },
            }
        }
    }
}

pub proof fn lemma_report_index_from(groups: Seq<FileReportView>, p: Seq<char>, i: int)
    ensures
        report_index_from(groups, p, i) matches Some(k) ==> 0 <= i <= k < groups.len() && components(
            groups[k].path,
        ) == components(p),
    decreases groups.len() - i,
{
    if 0 <= i < groups.len() && components(groups[i].path) != components(p) {
        lemma_report_index_from(groups, p, i + 1);
    }
}

/// The number of links a move reports as updated is the number of changes
/// in its file reports.
pub proof fn law_links_updated_counts_changes(plans: Seq<(Seq<char>, Seq<ReplacementView>)>)
    ensures
        total_changes(planned_reports(plans)) == total_replacements(plans),
{
    lemma_total_changes_group(plans);
    lemma_total_changes_sort(group_plans(plans));
}

/// Whether replacements come in the order of their starts.
pub open spec fn reps_sorted(s: Seq<ReplacementView>) -> bool {
    forall|i: int, j: int| 0 <= i < j < s.len() ==> s[i].start <= s[j].start
}

/// Whether the starts of replacements strictly increase.
pub open spec fn reps_strictly_sorted(s: Seq<ReplacementView>) -> bool {
    forall|i: int, j: int| 0 <= i < j < s.len() ==> s[i].start < s[j].start
}

pub proof fn lemma_insert_rep_sorted(s: Seq<ReplacementView>, x: ReplacementView)
    requires
        reps_sorted(s),
    ensures
        reps_sorted(insert_rep_by_start(s, x)),
        insert_rep_by_start(s, x).len() == s.len() + 1,
        forall|i: int| 0 <= i < insert_rep_by_start(s, x).len() ==> (#[trigger] insert_rep_by_start(s, x)[i] == x || s.contains(insert_rep_by_start(s, x)[i])),
    decreases s.len(),
{
    let r = insert_rep_by_start(s, x);
    if s.len() == 0 {
    } else if s.last().start <= x.start {
        assert forall|i: int| 0 <= i < r.len() implies (#[trigger] r[i] == x || s.contains(r[i])) by {
            if i < s.len() {
                assert(r[i] == s[i]);
            }
        }
        assert forall|i: int, j: int| 0 <= i < j < r.len() implies r[i].start <= r[j].start by {
            if j == s.len() {
                assert(s[i].start <= s[s.len() - 1].start);
            }
        }
    } else {
        let s1 = s.drop_last();
        assert(reps_sorted(s1)) by {
            assert forall|i: int, j: int| 0 <= i < j < s1.len() implies s1[i].start <= s1[j].start by {
                assert(s1[i] == s[i] && s1[j] == s[j]);
            }
        }
        lemma_insert_rep_sorted(s1, x);
        let r1 = insert_rep_by_start(s1, x);
        assert(r == r1.push(s.last()));
        assert forall|i: int| 0 <= i < r.len() implies (#[trigger] r[i] == x || s.contains(r[i])) by {
            if i < r1.len() {
                assert(r[i] == r1[i]);
                if r1[i] != x {
                    let k = choose|k: int| 0 <= k < s1.len() && s1[k] == r1[i];
                    assert(s[k] == r1[i]);
                }
            } else {
                assert(s[s.len() - 1] == s.last());
            }
        }
        assert forall|i: int, j: int| 0 <= i < j < r.len() implies r[i].start <= r[j].start by {
            if j == r1.len() {
                assert(r[i] == r1[i]);
                if r1[i] != x {
                    let k = choose|k: int| 0 <= k < s1.len() && s1[k] == r1[i];
                    assert(s[k].start <= s[s.len() - 1].start);
                }
            } else {
                assert(r[i] == r1[i] && r[j] == r1[j]);
            }
        }
    }
}

pub proof fn lemma_sort_reps_sorted(s: Seq<ReplacementView>)
    ensures
        reps_sorted(sort_reps_by_start(s)),
    decreases s.len(),
{
    if s.len() > 0 {
        lemma_sort_reps_sorted(s.drop_last());
        lemma_insert_rep_sorted(sort_reps_by_start(s.drop_last()), s.last());
    }
}

pub proof fn lemma_dedup_strict(s: Seq<ReplacementView>)
    requires
        reps_sorted(s),
    ensures
        reps_strictly_sorted(dedup_by_start(s)),
        dedup_by_start(s).len() > 0 ==> s.len() > 0 && dedup_by_start(s).last().start <= s.last().start,
        forall|i: int| 0 <= i < dedup_by_start(s).len() ==> s.contains(#[trigger] dedup_by_start(s)[i]),
    decreases s.len(),
{
    if s.len() > 0 {
        let s1 = s.drop_last();
        assert(reps_sorted(s1)) by {
            assert forall|i: int, j: int| 0 <= i < j < s1.len() implies s1[i].start <= s1[j].start by {
                assert(s1[i] == s[i] && s1[j] == s[j]);
            }
        }
        lemma_dedup_strict(s1);
        let d = dedup_by_start(s1);
        let r = dedup_by_start(s);
        if d.len() > 0 {
            assert(s1[s1.len() - 1].start <= s[s.len() - 1].start);
        }
        assert forall|i: int| 0 <= i < r.len() implies s.contains(#[trigger] r[i]) by {
            if i < d.len() {
                assert(r[i] == d[i]);
                let k = choose|k: int| 0 <= k < s1.len() && s1[k] == d[i];
                assert(s[k] == d[i]);
            } else {
                assert(s[s.len() - 1] == r[i]);
            }
        }
        if !(d.len() > 0 && d.last().start == s.last().start) {
            assert forall|i: int, j: int| 0 <= i < j < r.len() implies r[i].start < r[j].start by {
                if j == d.len() {
                    assert(d[i].start <= d.last().start) by {
                        if i < d.len() - 1 {
                            assert(d[i].start < d[d.len() - 1].start);
                        }
                    }
                } else {
                    assert(r[i] == d[i] && r[j] == d[j]);
                }
            }
        }
    }
}

pub proof fn lemma_insert_rep_strict(s: Seq<ReplacementView>, x: ReplacementView)
    requires
        reps_strictly_sorted(s),
        forall|k: int| 0 <= k < s.len() ==> #[trigger] s[k].start != x.start,
    ensures
        reps_strictly_sorted(insert_rep_by_start(s, x)),
        forall|i: int|
            0 <= i < insert_rep_by_start(s, x).len() ==> (#[trigger] insert_rep_by_start(s, x)[i] == x
                || s.contains(insert_rep_by_start(s, x)[i])),
    decreases s.len(),
{
    let r = insert_rep_by_start(s, x);
    if s.len() == 0 {
    } else if s.last().start <= x.start {
        assert(s[s.len() - 1].start != x.start);
        assert forall|i: int| 0 <= i < r.len() implies (#[trigger] r[i] == x || s.contains(r[i])) by {
            if i < s.len() {
                assert(r[i] == s[i]);
            }
        }
        assert forall|i: int, j: int| 0 <= i < j < r.len() implies r[i].start < r[j].start by {
            if j == s.len() {
                if i < s.len() - 1 {
                    assert(s[i].start < s[s.len() - 1].start);
                }
            }
        }
    } else {
        let s1 = s.drop_last();
        assert(reps_strictly_sorted(s1)) by {
            assert forall|i: int, j: int| 0 <= i < j < s1.len() implies s1[i].start < s1[j].start by {
                assert(s1[i] == s[i] && s1[j] == s[j]);
            }
        }
        assert forall|k: int| 0 <= k < s1.len() implies #[trigger] s1[k].start != x.start by {
            assert(s1[k] == s[k]);
        }
        lemma_insert_rep_strict(s1, x);
        let r1 = insert_rep_by_start(s1, x);
        assert(r == r1.push(s.last()));
        assert forall|i: int| 0 <= i < r.len() implies (#[trigger] r[i] == x || s.contains(r[i])) by {
            if i < r1.len() {
                assert(r[i] == r1[i]);
                if r1[i] != x {
                    let k = choose|k: int| 0 <= k < s1.len() && s1[k] == r1[i];
                    assert(s[k] == r1[i]);
                }
            } else {
                assert(s[s.len() - 1] == s.last());
            }
        }
        assert forall|i: int, j: int| 0 <= i < j < r.len() implies r[i].start < r[j].start by {
            if j == r1.len() {
                assert(r[i] == r1[i]);
                if r1[i] != x {
                    let k = choose|k: int| 0 <= k < s1.len() && s1[k] == r1[i];
                    assert(s[k].start < s[s.len() - 1].start);
                }
            } else {
                assert(r[i] == r1[i] && r[j] == r1[j]);
            }
        }
    }
}

/// Replacements that start at distinct offsets come out of sorting with
/// strictly increasing starts, each one of those that went in.
pub proof fn lemma_sort_reps_strict(s: Seq<ReplacementView>)
    requires
        forall|i: int, j: int|
            0 <= i < s.len() && 0 <= j < s.len() && i != j ==> #[trigger] s[i].start != #[trigger] s[j].start,
    ensures
        reps_strictly_sorted(sort_reps_by_start(s)),
        forall|i: int|
            0 <= i < sort_reps_by_start(s).len() ==> s.contains(#[trigger] sort_reps_by_start(s)[i]),
    decreases s.len(),
{
    if s.len() > 0 {
        let s1 = s.drop_last();
        let x = s.last();
        assert forall|i: int, j: int|
            0 <= i < s1.len() && 0 <= j < s1.len() && i != j implies #[trigger] s1[i].start
            != #[trigger] s1[j].start by {
            assert(s1[i] == s[i] && s1[j] == s[j]);
        }
        lemma_sort_reps_strict(s1);
        let t = sort_reps_by_start(s1);
        assert forall|k: int| 0 <= k < t.len() implies #[trigger] t[k].start != x.start by {
            let m = choose|m: int| 0 <= m < s1.len() && s1[m] == t[k];
            assert(s[m] == t[k]);
            assert(s[s.len() - 1] == x);
        }
        lemma_insert_rep_strict(t, x);
        let r = sort_reps_by_start(s);
        assert forall|i: int| 0 <= i < r.len() implies s.contains(#[trigger] r[i]) by {
            if r[i] == x {
                assert(s[s.len() - 1] == x);
            } else {
                let k = choose|k: int| 0 <= k < t.len() && t[k] == r[i];
                let m = choose|m: int| 0 <= m < s1.len() && s1[m] == t[k];
                assert(s[m] == r[i]);
            }
        }
    }
}

/// Replacements that fit in `b` in whatever order, sorted by start, fit in
/// `b` one after the other.
pub proof fn lemma_disjoint_sorted_fit(b: Seq<u8>, reps: Seq<ReplacementView>)
    requires
        replacements_disjoint(b, reps),
    ensures
        replacements_fit(b, sort_reps_by_start(reps)),
{
    assert forall|i: int, j: int|
        0 <= i < reps.len() && 0 <= j < reps.len() && i != j implies #[trigger] reps[i].start
        != #[trigger] reps[j].start by {
        assert(ranges_apart(reps[i], reps[j]));
    }
    lemma_sort_reps_strict(reps);
    let s = sort_reps_by_start(reps);
    assert forall|i: int| 0 <= i < s.len() implies range_fits(b, #[trigger] s[i]) by {
        let a = choose|a: int| 0 <= a < reps.len() && reps[a] == s[i];
        assert(range_fits(b, reps[a]));
    }
    assert forall|i: int| 1 <= i < s.len() implies s[i - 1].end <= #[trigger] s[i].start by {
        let a = choose|a: int| 0 <= a < reps.len() && reps[a] == s[i - 1];
        let c = choose|c: int| 0 <= c < reps.len() && reps[c] == s[i];
        assert(s[i - 1].start < s[i].start);
        assert(a != c);
        assert(ranges_apart(reps[a], reps[c]));
        assert(range_fits(b, reps[c]));
    }
}

/// Inserting a replacement adds it to the replacements held.
pub proof fn lemma_insert_rep_multiset(s: Seq<ReplacementView>, x: ReplacementView)
    ensures
        insert_rep_by_start(s, x).to_multiset() == s.to_multiset().insert(x),
    decreases s.len(),
{
    broadcast use vstd::seq_lib::group_to_multiset_ensures;

    if s.len() == 0 {
        assert(seq![x] =~= s.push(x));
    } else if s.last().start > x.start {
        let s1 = s.drop_last();
        lemma_insert_rep_multiset(s1, x);
        assert(s1.push(s.last()) =~= s);
        assert(s1.to_multiset().insert(x).insert(s.last()) =~= s1.to_multiset().insert(s.last()).insert(
            x,
        ));
    }
}

/// Sorting replacements keeps the replacements held.
pub proof fn lemma_sort_reps_multiset(s: Seq<ReplacementView>)
    ensures
        sort_reps_by_start(s).to_multiset() == s.to_multiset(),
    decreases s.len(),
{
    broadcast use vstd::seq_lib::group_to_multiset_ensures;

    if s.len() > 0 {
        lemma_sort_reps_multiset(s.drop_last());
        lemma_insert_rep_multiset(sort_reps_by_start(s.drop_last()), s.last());
        assert(s.drop_last().push(s.last()) =~= s);
    }
}

/// A list sorted by start and a list with strictly increasing starts that
/// hold the same replacements are the same list.
pub proof fn lemma_sorted_reps_unique(s1: Seq<ReplacementView>, s2: Seq<ReplacementView>)
    requires
        reps_strictly_sorted(s1),
        reps_sorted(s2),
        s1.to_multiset() == s2.to_multiset(),
    ensures
        s1 == s2,
    decreases s1.len(),
{
    broadcast use vstd::seq_lib::group_to_multiset_ensures;
    broadcast use vstd::multiset::group_multiset_axioms;

    assert(s1.len() == s1.to_multiset().len());
    assert(s2.len() == s2.to_multiset().len());
    if s1.len() > 0 {
        let n = s1.len();
        let x = s1.last();
        let y = s2.last();
        assert(s1[n - 1] == x);
        assert(s2[n - 1] == y);
        assert(s1.contains(x));
        assert(s2.contains(y));
        assert(s1.to_multiset().count(x) > 0);
        assert(s2.to_multiset().count(y) > 0);
        assert(s2.to_multiset().count(x) > 0);
        assert(s1.to_multiset().count(y) > 0);
        assert(s2.contains(x));
        assert(s1.contains(y));
        let i = choose|i: int| 0 <= i < n && s2[i] == x;
        let k = choose|k: int| 0 <= k < n && s1[k] == y;
        if i < n - 1 {
            assert(s2[i].start <= s2[n - 1].start);
        }
        if k < n - 1 {
            assert(s1[k].start < s1[n - 1].start);
            assert(false);
        }
        assert(x == y);
        let t1 = s1.drop_last();
        let t2 = s2.drop_last();
        assert(t1.push(x) =~= s1);
        assert(t2.push(x) =~= s2);
        assert(t1.to_multiset() =~= t2.to_multiset()) by {
            assert(t1.to_multiset().insert(x) == t2.to_multiset().insert(x));
            assert forall|v: ReplacementView| t1.to_multiset().count(v) == t2.to_multiset().count(v) by {
                if v == x {
                    assert(t1.to_multiset().insert(x).count(v) == t1.to_multiset().count(v) + 1);
                    assert(t2.to_multiset().insert(x).count(v) == t2.to_multiset().count(v) + 1);
                } else {
                    assert(t1.to_multiset().insert(x).count(v) == t1.to_multiset().count(v));
                    assert(t2.to_multiset().insert(x).count(v) == t2.to_multiset().count(v));
                }
            }
        }
        assert(reps_strictly_sorted(t1)) by {
            assert forall|a: int, c: int| 0 <= a < c < t1.len() implies t1[a].start < t1[c].start by {
                assert(t1[a] == s1[a] && t1[c] == s1[c]);
            }
        }
        assert(reps_sorted(t2)) by {
            assert forall|a: int, c: int| 0 <= a < c < t2.len() implies t2[a].start <= t2[c].start by {
                assert(t2[a] == s2[a] && t2[c] == s2[c]);
            }
        }
        lemma_sorted_reps_unique(t1, t2);
    }
}

/// Making replacements that neither overlap nor share a start does not
/// depend on the order in which they are listed: any list that holds the
/// same replacements can be made too, and is made in the same order, so
/// that the text comes out the same.
pub proof fn law_replacements_order_free(b: Seq<u8>, reps: Seq<ReplacementView>, other: Seq<ReplacementView>)
    requires
        replacements_disjoint(b, reps),
        other.to_multiset() == reps.to_multiset(),
    ensures
        replacements_disjoint(b, other),
        sort_reps_by_start(other) == sort_reps_by_start(reps),
        splice_from(b, sort_reps_by_start(other), 0) == splice_from(b, sort_reps_by_start(reps), 0),
{
    broadcast use vstd::seq_lib::group_to_multiset_ensures;

    assert forall|i: int, j: int|
        0 <= i < reps.len() && 0 <= j < reps.len() && i != j implies #[trigger] reps[i].start
        != #[trigger] reps[j].start by {
        assert(ranges_apart(reps[i], reps[j]));
    }
    assert(reps.no_duplicates()) by {
        assert forall|i: int, j: int| 0 <= i < reps.len() && 0 <= j < reps.len() && i != j implies reps[i]
            != reps[j] by {
            assert(reps[i].start != reps[j].start);
        }
    }
    reps.lemma_multiset_has_no_duplicates();
    other.lemma_multiset_has_no_duplicates_conv();
    assert forall|i: int| 0 <= i < other.len() implies range_fits(b, #[trigger] other[i]) by {
        assert(other.contains(other[i]));
        assert(other.to_multiset().count(other[i]) > 0);
        assert(reps.to_multiset().count(other[i]) > 0);
        assert(reps.contains(other[i]));
        let a = choose|a: int| 0 <= a < reps.len() && reps[a] == other[i];
        assert(range_fits(b, reps[a]));
    }
    assert forall|i: int, j: int|
        0 <= i < other.len() && 0 <= j < other.len() && i != j implies ranges_apart(
        #[trigger] other[i],
        #[trigger] other[j],
    ) by {
        assert(other.contains(other[i]));
        assert(other.to_multiset().count(other[i]) > 0);
        assert(reps.to_multiset().count(other[i]) > 0);
        assert(reps.contains(other[i]));
        assert(other.contains(other[j]));
        assert(other.to_multiset().count(other[j]) > 0);
        assert(reps.to_multiset().count(other[j]) > 0);
        assert(reps.contains(other[j]));
        let a = choose|a: int| 0 <= a < reps.len() && reps[a] == other[i];
        let c = choose|c: int| 0 <= c < reps.len() && reps[c] == other[j];
        assert(other[i] != other[j]);
        assert(ranges_apart(reps[a], reps[c]));
    }
    lemma_sort_reps_strict(reps);
    lemma_sort_reps_sorted(other);
    lemma_sort_reps_multiset(reps);
    lemma_sort_reps_multiset(other);
    lemma_sorted_reps_unique(sort_reps_by_start(reps), sort_reps_by_start(other));
}

/// How many bytes longer a replacement makes the text: the bytes of its new
/// href less the bytes of its range.
pub open spec fn rep_growth(r: ReplacementView) -> int {
    vstd::utf8::encode_utf8(r.new_href).len() - (r.end - r.start)
}

/// How many bytes longer replacements make the text, in all.
pub open spec fn splice_growth(reps: Seq<ReplacementView>) -> int
    decreases reps.len(),
{
    if reps.len() == 0 {
        0
    } else {
        splice_growth(reps.drop_last()) + rep_growth(reps.last())
    }
}

pub proof fn lemma_growth_front(s: Seq<ReplacementView>)
    requires
        s.len() > 0,
    ensures
        splice_growth(s) == rep_growth(s[0]) + splice_growth(s.drop_first()),
    decreases s.len(),
{
    if s.len() > 1 {
        lemma_growth_front(s.drop_last());
        assert(s.drop_last().drop_first() =~= s.drop_first().drop_last());
        assert(s.drop_first().last() == s.last());
        assert(s.drop_last()[0] == s[0]);
    } else {
        assert(s.drop_first() =~= Seq::<ReplacementView>::empty());
        assert(s.drop_last() =~= Seq::<ReplacementView>::empty());
    }
}

pub proof fn lemma_growth_insert(s: Seq<ReplacementView>, x: ReplacementView)
    ensures
        splice_growth(insert_rep_by_start(s, x)) == splice_growth(s) + rep_growth(x),
    decreases s.len(),
{
    if s.len() == 0 {
        assert(seq![x].drop_last() =~= s);
    } else if s.last().start <= x.start {
        assert(s.push(x).drop_last() =~= s);
    } else {
        let s1 = s.drop_last();
        lemma_growth_insert(s1, x);
        let r1 = insert_rep_by_start(s1, x);
        assert(r1.push(s.last()).drop_last() =~= r1);
    }
}

pub proof fn lemma_growth_sort(s: Seq<ReplacementView>)
    ensures
        splice_growth(sort_reps_by_start(s)) == splice_growth(s),
    decreases s.len(),
{
    if s.len() > 0 {
        lemma_growth_sort(s.drop_last());
        lemma_growth_insert(sort_reps_by_start(s.drop_last()), s.last());
    }
}

pub proof fn lemma_splice_len(b: Seq<u8>, reps: Seq<ReplacementView>, cur: int)
    requires
        replacements_fit(b, reps),
        0 <= cur <= b.len(),
        reps.len() > 0 ==> cur <= reps[0].start,
    ensures
        splice_from(b, reps, cur).len() == b.len() - cur + splice_growth(reps),
    decreases reps.len(),
{
    if reps.len() > 0 {
        let rest = reps.drop_first();
        assert(range_fits(b, reps[0]));
        assert(replacements_fit(b, rest)) by {
            assert forall|i: int| 0 <= i < rest.len() implies range_fits(b, #[trigger] rest[i]) by {
                assert(rest[i] == reps[i + 1]);
            }
            assert forall|i: int| 1 <= i < rest.len() implies rest[i - 1].end <= #[trigger] rest[i].start by {
                assert(rest[i] == reps[i + 1]);
                assert(rest[i - 1] == reps[i]);
            }
        }
        if rest.len() > 0 {
            assert(rest[0] == reps[1]);
        }
        lemma_splice_len(b, rest, reps[0].end);
        lemma_growth_front(reps);
    }
}

/// The text with replacements made is longer than the text by what each
/// replacement adds (the bytes of its new href less those of its range),
/// whatever order the replacements are listed in.
pub proof fn law_applied_text_len(b: Seq<u8>, reps: Seq<ReplacementView>)
    requires
        replacements_disjoint(b, reps),
    ensures
        splice_from(b, sort_reps_by_start(reps), 0).len() == b.len() + splice_growth(reps),
{
    lemma_disjoint_sorted_fit(b, reps);
    let s = sort_reps_by_start(reps);
    if s.len() > 0 {
        assert(range_fits(b, s[0]));
    }
    lemma_splice_len(b, s, 0);
    lemma_growth_sort(reps);
}

/// Where the `k`-th replacement's new href stands in the text that splicing
/// from `cur` writes: at its start, moved by what the replacements before it
/// add.
pub open spec fn spliced_at(reps: Seq<ReplacementView>, k: int, cur: int) -> int {
    reps[k].start - cur + splice_growth(reps.take(k))
}

pub proof fn lemma_splice_places(b: Seq<u8>, reps: Seq<ReplacementView>, cur: int)
    requires
        replacements_fit(b, reps),
        0 <= cur <= b.len(),
        reps.len() > 0 ==> cur <= reps[0].start,
    ensures
        forall|k: int|
            0 <= k < reps.len() ==> {
                let at = #[trigger] spliced_at(reps, k, cur);
                let h = vstd::utf8::encode_utf8(reps[k].new_href);
                &&& 0 <= at
                &&& at + h.len() <= splice_from(b, reps, cur).len()
                &&& splice_from(b, reps, cur).subrange(at, at + h.len()) == h
            },
    decreases reps.len(),
{
    if reps.len() > 0 {
        let r0 = reps[0];
        let rest = reps.drop_first();
        assert(range_fits(b, r0));
        assert(replacements_fit(b, rest)) by {
            assert forall|i: int| 0 <= i < rest.len() implies range_fits(b, #[trigger] rest[i]) by {
                assert(rest[i] == reps[i + 1]);
            }
            assert forall|i: int| 1 <= i < rest.len() implies rest[i - 1].end <= #[trigger] rest[i].start by {
                assert(rest[i] == reps[i + 1]);
                assert(rest[i - 1] == reps[i]);
            }
        }
        if rest.len() > 0 {
            assert(rest[0] == reps[1]);
        }
        lemma_splice_places(b, rest, r0.end);
        lemma_splice_len(b, rest, r0.end);
        let head = b.subrange(cur, r0.start);
        let h0 = vstd::utf8::encode_utf8(r0.new_href);
        let tail = splice_from(b, rest, r0.end);
        let out = splice_from(b, reps, cur);
        assert(out == head + h0 + tail);
        assert forall|k: int| 0 <= k < reps.len() implies {
            let at = #[trigger] spliced_at(reps, k, cur);
            let h = vstd::utf8::encode_utf8(reps[k].new_href);
            &&& 0 <= at
            &&& at + h.len() <= out.len()
            &&& out.subrange(at, at + h.len()) == h
        } by {
            let at = spliced_at(reps, k, cur);
            let h = vstd::utf8::encode_utf8(reps[k].new_href);
            if k == 0 {
                assert(reps.take(0) =~= Seq::<ReplacementView>::empty());
                assert(at == head.len());
                assert(out.subrange(at, at + h.len()) =~= h0);
            } else {
                let at1 = spliced_at(rest, k - 1, r0.end);
                assert(rest[k - 1] == reps[k]);
                lemma_growth_front(reps.take(k));
                assert(reps.take(k)[0] == r0);
                assert(reps.take(k).drop_first() =~= rest.take(k - 1));
                assert(at == head.len() + h0.len() + at1);
                assert(out.subrange(at, at + h.len()) =~= tail.subrange(at1, at1 + h.len()));
            }
        }
    }
}

/// In the text with replacements made, the new href of each replacement,
/// taken in the order of their starts, stands where its range started,
/// moved by what the replacements before it add.
pub proof fn law_applied_text_holds_new_hrefs(b: Seq<u8>, reps: Seq<ReplacementView>)
    requires
        replacements_disjoint(b, reps),
    ensures
        ({
            let s = sort_reps_by_start(reps);
            let out = splice_from(b, s, 0);
            forall|k: int|
                0 <= k < s.len() ==> {
                    let at = #[trigger] spliced_at(s, k, 0);
                    let h = vstd::utf8::encode_utf8(s[k].new_href);
                    &&& 0 <= at
                    &&& at + h.len() <= out.len()
                    &&& out.subrange(at, at + h.len()) == h
                }
        }),
{
    lemma_disjoint_sorted_fit(b, reps);
    let s = sort_reps_by_start(reps);
    if s.len() > 0 {
        assert(range_fits(b, s[0]));
    }
    lemma_splice_places(b, s, 0);
}

/// The replacements of a file are made in order: after sorting and
/// dropping those that start where an earlier one starts, the starts
/// strictly increase.
pub proof fn law_replacements_made_in_order(reps: Seq<ReplacementView>)
    ensures
        reps_strictly_sorted(dedup_by_start(sort_reps_by_start(reps))),
{
    lemma_sort_reps_sorted(reps);
    lemma_dedup_strict(sort_reps_by_start(reps));
}

pub proof fn lemma_insert_by_path_members(s: Seq<FileReportView>, x: FileReportView)
    ensures
        forall|i: int| 0 <= i < insert_by_path(s, x).len() ==> (#[trigger] insert_by_path(s, x)[i] == x || s.contains(insert_by_path(s, x)[i])),
    decreases s.len(),
{
    let r = insert_by_path(s, x);
    if s.len() == 0 {
    } else if !path_lt(x.path, s.last().path) {
        assert forall|i: int| 0 <= i < r.len() implies (#[trigger] r[i] == x || s.contains(r[i])) by {
            if i < s.len() {
                assert(r[i] == s[i]);
            }
        }
    } else {
        let s1 = s.drop_last();
        lemma_insert_by_path_members(s1, x);
        let r1 = insert_by_path(s1, x);
        assert forall|i: int| 0 <= i < r.len() implies (#[trigger] r[i] == x || s.contains(r[i])) by {
            if i < r1.len() {
                assert(r[i] == r1[i]);
                if r1[i] != x {
                    let k = choose|k: int| 0 <= k < s1.len() && s1[k] == r1[i];
                    assert(s[k] == r1[i]);
                }
            } else {
                assert(s[s.len() - 1] == r[i]);
            }
        }
    }
}

/// Whether every report holds at least one change.
pub open spec fn reports_nonempty(s: Seq<FileReportView>) -> bool {
    forall|i: int| 0 <= i < s.len() ==> (#[trigger] s[i]).changes.len() > 0
}

pub proof fn lemma_sort_by_path_nonempty(s: Seq<FileReportView>)
    requires
        reports_nonempty(s),
    ensures
        reports_nonempty(sort_by_path(s)),
    decreases s.len(),
{
    if s.len() > 0 {
        let s1 = s.drop_last();
        assert(reports_nonempty(s1)) by {
            assert forall|i: int| 0 <= i < s1.len() implies (#[trigger] s1[i]).changes.len() > 0 by {
                assert(s1[i] == s[i]);
            }
        }
        lemma_sort_by_path_nonempty(s1);
        let t = sort_by_path(s1);
        lemma_insert_by_path_members(t, s.last());
        let r = sort_by_path(s);
        assert(s[s.len() - 1] == s.last());
        assert forall|i: int| 0 <= i < r.len() implies (#[trigger] r[i]).changes.len() > 0 by {
            if r[i] != s.last() {
                let k = choose|k: int| 0 <= k < t.len() && t[k] == r[i];
            }
        }
    }
}

pub proof fn lemma_group_plans_nonempty(plans: Seq<(Seq<char>, Seq<ReplacementView>)>)
    ensures
        reports_nonempty(group_plans(plans)),
    decreases plans.len(),
{
    if plans.len() > 0 {
        let p1 = plans.drop_last();
        lemma_group_plans_nonempty(p1);
        let g = group_plans(p1);
        let (p, reps) = plans.last();
        let r = group_plans(plans);
        assert(changes_of(reps).len() == reps.len());
        if reps.len() > 0 {
            match report_index_from(g, p, 0) {
                Some(k) => {
                    lemma_report_index_from(g, p, 0);
                    assert forall|i: int| 0 <= i < r.len() implies (#[trigger] r[i]).changes.len() > 0 by {
                        if i != k {
                            assert(r[i] == g[i]);
                        }
                    }
                },
                None => {
                    assert forall|i: int| 0 <= i < r.len() implies (#[trigger] r[i]).changes.len() > 0 by {
                        if i < g.len() {
                            assert(r[i] == g[i]);
                        }
                    }
                },
            }
        }
    }
}

/// Only files with changes are reported: every report holds at least one
/// changed link.
pub proof fn law_reported_files_have_changes(plans: Seq<(Seq<char>, Seq<ReplacementView>)>)
    ensures
        reports_nonempty(planned_reports(plans)),
{
    lemma_group_plans_nonempty(plans);
    lemma_sort_by_path_nonempty(group_plans(plans));
}

/// Every replacement planned for a file changes one of its links: it
/// covers the range of a link whose href is the old href, and the new href
/// differs from it.
pub proof fn law_planned_replacements_change(md_file: Seq<char>, links: Seq<LinkView>, moves: Seq<(Seq<char>, Seq<char>)>)
    ensures
        forall|i: int|
            0 <= i < links_replacements(md_file, links, moves).len() ==> {
                let r = #[trigger] links_replacements(md_file, links, moves)[i];
                &&& r.new_href != r.old_href
                &&& exists|k: int|
                    0 <= k < links.len() && links[k].href == r.old_href && links[k].start == r.start
                        && links[k].end == r.end
            },
    decreases links.len(),
{
    if links.len() > 0 {
        let l1 = links.drop_last();
        law_planned_replacements_change(md_file, l1, moves);
        let a = links_replacements(md_file, l1, moves);
        let all = links_replacements(md_file, links, moves);
        let n = links.len() - 1;
        assert(links[n] == links.last());
        assert forall|i: int| 0 <= i < all.len() implies {
            let r = #[trigger] all[i];
            &&& r.new_href != r.old_href
            &&& exists|k: int|
                0 <= k < links.len() && links[k].href == r.old_href && links[k].start == r.start
                    && links[k].end == r.end
        } by {
            if i < a.len() {
                assert(all[i] == a[i]);
                let k = choose|k: int|
                    0 <= k < l1.len() && l1[k].href == a[i].old_href && l1[k].start == a[i].start
                        && l1[k].end == a[i].end;
                assert(links[k] == l1[k]);
            } else {
                assert(link_replacement(md_file, links.last(), moves) is Some);
            }
        }
    }
}

/// Whether every change of every report replaces an href by a different one.
pub open spec fn changes_differ(s: Seq<FileReportView>) -> bool {
    forall|i: int, j: int|
        0 <= i < s.len() && 0 <= j < s[i].changes.len() ==> (#[trigger] s[i].changes[j]).old_href
            != s[i].changes[j].new_href
}

/// Whether every planned replacement changes its href.
pub open spec fn plans_change(plans: Seq<(Seq<char>, Seq<ReplacementView>)>) -> bool {
    forall|k: int, j: int|
        0 <= k < plans.len() && 0 <= j < plans[k].1.len() ==> (#[trigger] plans[k].1[j]).old_href
            != plans[k].1[j].new_href
}

pub proof fn lemma_group_plans_changes_differ(plans: Seq<(Seq<char>, Seq<ReplacementView>)>)
    requires
        plans_change(plans),
    ensures
        changes_differ(group_plans(plans)),
    decreases plans.len(),
{
    if plans.len() > 0 {
        let p1 = plans.drop_last();
        assert(plans_change(p1)) by {
            assert forall|k: int, j: int| 0 <= k < p1.len() && 0 <= j < p1[k].1.len() implies (#[trigger] p1[k].1[j]).old_href
                != p1[k].1[j].new_href by {
                assert(p1[k] == plans[k]);
            }
        }
        lemma_group_plans_changes_differ(p1);
        let g = group_plans(p1);
        let (p, reps) = plans.last();
        assert(plans[plans.len() - 1] == plans.last());
        let cs = changes_of(reps);
        assert forall|j: int| 0 <= j < cs.len() implies (#[trigger] cs[j]).old_href != cs[j].new_href by {
            assert(cs[j] == change_of(reps[j]));
            assert(reps[j] == plans[plans.len() - 1].1[j]);
        }
        let r = group_plans(plans);
        if reps.len() > 0 {
            match report_index_from(g, p, 0) {
                Some(m) => {
                    lemma_report_index_from(g, p, 0);
                    assert forall|i: int, j: int|
                        0 <= i < r.len() && 0 <= j < r[i].changes.len() implies (#[trigger] r[i].changes[j]).old_href
                            != r[i].changes[j].new_href by {
                        if i != m {
                            assert(r[i] == g[i]);
                        } else if j < g[m].changes.len() {
                            assert(r[m].changes[j] == g[m].changes[j]);
                        } else {
                            assert(r[m].changes[j] == cs[j - g[m].changes.len()]);
                        }
                    }
                },
                None => {
                    assert forall|i: int, j: int|
                        0 <= i < r.len() && 0 <= j < r[i].changes.len() implies (#[trigger] r[i].changes[j]).old_href
                            != r[i].changes[j].new_href by {
                        if i < g.len() {
                            assert(r[i] == g[i]);
                        }
                    }
                },
            }
        }
    }
}

pub proof fn lemma_sort_by_path_changes_differ(s: Seq<FileReportView>)
    requires
        changes_differ(s),
    ensures
        changes_differ(sort_by_path(s)),
    decreases s.len(),
{
    if s.len() > 0 {
        let s1 = s.drop_last();
        assert(changes_differ(s1)) by {
            assert forall|i: int, j: int| 0 <= i < s1.len() && 0 <= j < s1[i].changes.len() implies (#[trigger] s1[i].changes[j]).old_href
                != s1[i].changes[j].new_href by {
                assert(s1[i] == s[i]);
            }
        }
        lemma_sort_by_path_changes_differ(s1);
        let t = sort_by_path(s1);
        lemma_insert_by_path_members(t, s.last());
        let r = sort_by_path(s);
        assert(s[s.len() - 1] == s.last());
        assert forall|i: int, j: int| 0 <= i < r.len() && 0 <= j < r[i].changes.len() implies (#[trigger] r[i].changes[j]).old_href
            != r[i].changes[j].new_href by {
            if r[i] != s.last() {
                let k = choose|k: int| 0 <= k < t.len() && t[k] == r[i];
                assert(t[k].changes[j] == r[i].changes[j]);
            } else {
                assert(s[s.len() - 1].changes[j] == r[i].changes[j]);
            }
        }
    }
}

/// Where every planned replacement changes its href, so does every change
/// the report shows.
pub proof fn law_reported_changes_differ(plans: Seq<(Seq<char>, Seq<ReplacementView>)>)
    requires
        plans_change(plans),
    ensures
        changes_differ(planned_reports(plans)),
{
    lemma_group_plans_changes_differ(plans);
    lemma_sort_by_path_changes_differ(group_plans(plans));
}

/// Where a path is once the files of `moves` have moved: the destination
/// of the last move of it, or where it was.
pub open spec fn moved_place(moves: Seq<(Seq<char>, Seq<char>)>, p: Seq<char>) -> Seq<char> {
    match move_target(moves, p) {
        Some(d) => d,
        None => p,
    }
}

/// What a link of the file `md_file` that resolves needs for a move to keep
/// it working: the file's directory before and after the move and the new
/// place of the target are absolute paths in normal form, and the target's
/// new place can be written relative to the file's new directory.
pub open spec fn link_movable(md_file: Seq<char>, l: LinkView, moves: Seq<(Seq<char>, Seq<char>)>) -> bool {
    match l.resolved {
        Some(p) => {
            let new_dir = parent_dir(moved_place(moves, md_file));
            &&& is_normal_absolute(parent_dir(md_file))
            &&& is_normal_absolute(new_dir)
            &&& is_normal_absolute(moved_place(moves, p))
            &&& writable_relative(new_dir, moved_place(moves, p))
        },
        None => true,
    }
}

/// A link read from the file `md_file` (an href that is no absolute URL or
/// anchor, resolved from the file's directory) that resolves leads, once
/// the move is planned, from the file's new directory to the new place of
/// its target, and keeps its fragment; whichever of the two moves.
pub proof fn law_link_after_move(md_file: Seq<char>, l: LinkView, moves: Seq<(Seq<char>, Seq<char>)>)
    requires
        l.resolved is Some,
        l.resolved == resolved_href(path_part(l.href), parent_dir(md_file)),
        !spec_is_external(l.href),
        !(l.href.len() > 0 && l.href[0] == '#'),
        link_movable(md_file, l, moves),
    ensures
        resolved_href(href_after_move(md_file, l, moves), parent_dir(moved_place(moves, md_file)))
            == Some(moved_place(moves, l.resolved->0)),
        fragment(href_after_move(md_file, l, moves)) == fragment(l.href),
{
    let p = l.resolved->0;
    match move_target(moves, md_file) {
        Some(new_src) => match target_move(moves, l.resolved) {
            Some(t) => {
                law_link_between_moved_files(md_file, l, moves, new_src, t);
            },
            None => {
                law_link_in_moved_file(md_file, l, moves, new_src, p);
            },
        },
        None => match target_move(moves, l.resolved) {
            Some(t) => {
                law_link_to_moved_file(md_file, l, moves, t);
            },
            None => {
                law_unaffected_link_kept(md_file, l, moves);
                assert(path_part(l.href).len() > 0);
                lemma_fragment_shape(l.href);
                assert(l.href.len() > 0);
                lemma_resolved_path_part(l.href, parent_dir(md_file));
            },
        },
    }
}

/// A link whose replacement is planned finds it among the replacements
/// planned for its file.
pub proof fn lemma_replacements_hold_link(md_file: Seq<char>, links: Seq<LinkView>, moves: Seq<(Seq<char>, Seq<char>)>, k: int)
    requires
        0 <= k < links.len(),
        link_replacement(md_file, links[k], moves) is Some,
    ensures
        links_replacements(md_file, links, moves).contains(link_replacement(md_file, links[k], moves)->0),
    decreases links.len(),
{
    let all = links_replacements(md_file, links, moves);
    let a = links_replacements(md_file, links.drop_last(), moves);
    if k == links.len() - 1 {
        assert(links[k] == links.last());
        assert(all[a.len() as int] == link_replacement(md_file, links[k], moves)->0);
    } else {
        assert(links.drop_last()[k] == links[k]);
        lemma_replacements_hold_link(md_file, links.drop_last(), moves, k);
        let j = choose|j: int| 0 <= j < a.len() && a[j] == link_replacement(md_file, links[k], moves)->0;
        assert(all[j] == a[j]);
    }
}

/// The whole move, for one file: with the links of the file `md_file` whose
/// text is `content` (as the events `evs` of the document show them), and
/// the replacements planned for them made in the text, every link that
/// resolves leads, from the file's new directory, to the new place of its
/// target and keeps its fragment; where its href changes, the replacement
/// planned for it covers its range, and the new href stands in the new text
/// where that range started, moved by what the replacements before it add.
pub proof fn law_file_after_move(
    md_file: Seq<char>,
    content: Seq<char>,
    evs: Seq<MarkdownEventView>,
    moves: Seq<(Seq<char>, Seq<char>)>,
)
    requires
        forall|k: int|
            0 <= k < document_links(content, md_file, evs).len() ==> link_movable(
                md_file,
                #[trigger] document_links(content, md_file, evs)[k],
                moves,
            ),
        replacements_disjoint(
            vstd::utf8::encode_utf8(content),
            links_replacements(md_file, document_links(content, md_file, evs), moves),
        ),
    ensures
        ({
            let links = document_links(content, md_file, evs);
            let s = sort_reps_by_start(links_replacements(md_file, links, moves));
            let out = splice_from(vstd::utf8::encode_utf8(content), s, 0);
            let new_dir = parent_dir(moved_place(moves, md_file));
            forall|k: int|
                0 <= k < links.len() && #[trigger] links[k].resolved is Some ==> {
                    let h = href_after_move(md_file, links[k], moves);
                    &&& resolved_href(h, new_dir) == Some(moved_place(moves, links[k].resolved->0))
                    &&& fragment(h) == fragment(links[k].href)
                    &&& h != links[k].href ==> exists|j: int|
                        0 <= j < s.len() && s[j].start == links[k].start && s[j].end == links[k].end
                            && s[j].new_href == h && out.subrange(
                            spliced_at(s, j, 0),
                            spliced_at(s, j, 0) + vstd::utf8::encode_utf8(h).len(),
                        ) == vstd::utf8::encode_utf8(h)
                }
        }),
{
    let b = vstd::utf8::encode_utf8(content);
    let links = document_links(content, md_file, evs);
    let reps = links_replacements(md_file, links, moves);
    let s = sort_reps_by_start(reps);
    let out = splice_from(b, s, 0);
    let dir = parent_dir(md_file);
    law_links_found_in_order(content, md_file, evs);
    law_applied_text_holds_new_hrefs(b, reps);
    lemma_sort_reps_multiset(reps);
    assert forall|k: int| 0 <= k < links.len() && #[trigger] links[k].resolved is Some implies {
        let h = href_after_move(md_file, links[k], moves);
        &&& resolved_href(h, parent_dir(moved_place(moves, md_file))) == Some(
            moved_place(moves, links[k].resolved->0),
        )
        &&& fragment(h) == fragment(links[k].href)
        &&& h != links[k].href ==> exists|j: int|
            0 <= j < s.len() && s[j].start == links[k].start && s[j].end == links[k].end
                && s[j].new_href == h && out.subrange(
                spliced_at(s, j, 0),
                spliced_at(s, j, 0) + vstd::utf8::encode_utf8(h).len(),
            ) == vstd::utf8::encode_utf8(h)
    } by {
        let l = links[k];
        assert(found_at(b, dir, l));
        assert(link_movable(md_file, l, moves));
        law_link_after_move(md_file, l, moves);
        let h = href_after_move(md_file, l, moves);
        if h != l.href {
            assert(link_replacement(md_file, l, moves) is Some);
            let r = link_replacement(md_file, l, moves)->0;
            assert(r.start == l.start && r.end == l.end && r.new_href == h);
            lemma_replacements_hold_link(md_file, links, moves, k);
            broadcast use vstd::seq_lib::group_to_multiset_ensures;
            assert(reps.to_multiset().count(r) > 0);
            assert(s.to_multiset().count(r) > 0);
            assert(s.contains(r));
            let j = choose|j: int| 0 <= j < s.len() && s[j] == r;
        }
    }
}

/// Whether no two reports are about the same path, component for
/// component.
pub open spec fn reports_distinct(s: Seq<FileReportView>) -> bool {
    forall|i: int, j: int|
        0 <= i < s.len() && 0 <= j < s.len() && i != j ==> components(#[trigger] s[i].path)
            != components(#[trigger] s[j].path)
}

pub proof fn lemma_report_index_none(groups: Seq<FileReportView>, p: Seq<char>, i: int)
    requires
        0 <= i,
        report_index_from(groups, p, i) is None,
    ensures
        forall|k: int| i <= k < groups.len() ==> components(#[trigger] groups[k].path) != components(p),
    decreases groups.len() - i,
{
    if i < groups.len() {
        lemma_report_index_none(groups, p, i + 1);
    }
}

pub proof fn lemma_group_plans_distinct(plans: Seq<(Seq<char>, Seq<ReplacementView>)>)
    ensures
        reports_distinct(group_plans(plans)),
    decreases plans.len(),
{
    if plans.len() > 0 {
        lemma_group_plans_distinct(plans.drop_last());
        let g = group_plans(plans.drop_last());
        let (p, reps) = plans.last();
        let r = group_plans(plans);
        if reps.len() > 0 {
            match report_index_from(g, p, 0) {
                Some(m) => {
                    lemma_report_index_from(g, p, 0);
                    assert forall|i: int, j: int|
                        0 <= i < r.len() && 0 <= j < r.len() && i != j implies components(#[trigger] r[i].path)
                        != components(#[trigger] r[j].path) by {
                        assert(r[i].path == g[i].path);
                        assert(r[j].path == g[j].path);
                    }
                },
                None => {
                    lemma_report_index_none(g, p, 0);
                    assert forall|i: int, j: int|
                        0 <= i < r.len() && 0 <= j < r.len() && i != j implies components(#[trigger] r[i].path)
                        != components(#[trigger] r[j].path) by {
                        if i < g.len() {
                            assert(r[i] == g[i]);
                        }
                        if j < g.len() {
                            assert(r[j] == g[j]);
                        }
                    }
                },
            }
        }
    }
}

pub proof fn lemma_insert_by_path_distinct(t: Seq<FileReportView>, x: FileReportView)
    requires
        reports_distinct(t),
        forall|k: int| 0 <= k < t.len() ==> components(#[trigger] t[k].path) != components(x.path),
    ensures
        reports_distinct(insert_by_path(t, x)),
    decreases t.len(),
{
    let r = insert_by_path(t, x);
    if t.len() == 0 {
    } else if !path_lt(x.path, t.last().path) {
        assert forall|i: int, j: int|
            0 <= i < r.len() && 0 <= j < r.len() && i != j implies components(#[trigger] r[i].path)
            != components(#[trigger] r[j].path) by {
            if i < t.len() {
                assert(r[i] == t[i]);
            }
            if j < t.len() {
                assert(r[j] == t[j]);
            }
        }
    } else {
        let t1 = t.drop_last();
        assert(reports_distinct(t1)) by {
            assert forall|i: int, j: int|
                0 <= i < t1.len() && 0 <= j < t1.len() && i != j implies components(#[trigger] t1[i].path)
                != components(#[trigger] t1[j].path) by {
                assert(t1[i] == t[i] && t1[j] == t[j]);
            }
        }
        assert forall|k: int| 0 <= k < t1.len() implies components(#[trigger] t1[k].path) != components(x.path) by {
            assert(t1[k] == t[k]);
        }
        lemma_insert_by_path_distinct(t1, x);
        lemma_insert_by_path_members(t1, x);
        let r1 = insert_by_path(t1, x);
        let n = t.len() - 1;
        assert(t[n] == t.last());
        assert forall|i: int| 0 <= i < r1.len() implies components(#[trigger] r1[i].path) != components(t.last().path) by {
            if r1[i] != x {
                let m = choose|m: int| 0 <= m < t1.len() && t1[m] == r1[i];
                assert(t[m] == t1[m]);
            }
        }
        assert forall|i: int, j: int|
            0 <= i < r.len() && 0 <= j < r.len() && i != j implies components(#[trigger] r[i].path)
            != components(#[trigger] r[j].path) by {
            if i < r1.len() {
                assert(r[i] == r1[i]);
            }
            if j < r1.len() {
                assert(r[j] == r1[j]);
            }
        }
    }
}

pub proof fn lemma_sort_by_path_distinct(s: Seq<FileReportView>)
    requires
        reports_distinct(s),
    ensures
        reports_distinct(sort_by_path(s)),
        forall|i: int| 0 <= i < sort_by_path(s).len() ==> s.contains(#[trigger] sort_by_path(s)[i]),
    decreases s.len(),
{
    if s.len() > 0 {
        let s1 = s.drop_last();
        let x = s.last();
        assert(reports_distinct(s1)) by {
            assert forall|i: int, j: int|
                0 <= i < s1.len() && 0 <= j < s1.len() && i != j implies components(#[trigger] s1[i].path)
                != components(#[trigger] s1[j].path) by {
                assert(s1[i] == s[i] && s1[j] == s[j]);
            }
        }
        lemma_sort_by_path_distinct(s1);
        let t = sort_by_path(s1);
        assert(s[s.len() - 1] == x);
        assert forall|k: int| 0 <= k < t.len() implies components(#[trigger] t[k].path) != components(x.path) by {
            let m = choose|m: int| 0 <= m < s1.len() && s1[m] == t[k];
            assert(s[m] == s1[m]);
        }
        lemma_insert_by_path_distinct(t, x);
        lemma_insert_by_path_members(t, x);
        let r = sort_by_path(s);
        assert forall|i: int| 0 <= i < r.len() implies s.contains(#[trigger] r[i]) by {
            if r[i] != x {
                let k = choose|k: int| 0 <= k < t.len() && t[k] == r[i];
                let m = choose|m: int| 0 <= m < s1.len() && s1[m] == t[k];
                assert(s[m] == s1[m]);
            }
        }
    }
}

pub proof fn lemma_chars_lt_total(a: Seq<char>, b: Seq<char>, i: int)
    requires
        0 <= i <= a.len(),
        i <= b.len(),
        forall|k: int| 0 <= k < i ==> a[k] == b[k],
        a != b,
    ensures
        chars_lt_from(a, b, i) || chars_lt_from(b, a, i),
    decreases a.len() - i,
{
    if i == a.len() && i == b.len() {
        assert(a =~= b);
    } else if i < a.len() && i < b.len() && a[i] == b[i] {
        lemma_chars_lt_total(a, b, i + 1);
    }
}

pub proof fn lemma_comps_lt_total(a: Seq<Comp>, b: Seq<Comp>, i: int)
    requires
        0 <= i <= a.len(),
        i <= b.len(),
        forall|k: int| 0 <= k < i ==> a[k] == b[k],
        a != b,
    ensures
        comps_lt_from(a, b, i) || comps_lt_from(b, a, i),
    decreases a.len() - i,
{
    if i == a.len() && i == b.len() {
        assert(a =~= b);
    } else if i < a.len() && i < b.len() {
        if a[i] == b[i] {
            lemma_comps_lt_total(a, b, i + 1);
        } else {
            match (a[i], b[i]) {
                (Comp::Normal(x), Comp::Normal(y)) => {
                    lemma_chars_lt_total(x, y, 0);
                },
                _ => {},
            }
        }
    }
}

/// The reports of a move are each about a path of their own, and come in
/// strictly increasing order of their paths.
pub proof fn law_reports_strictly_ascending(plans: Seq<(Seq<char>, Seq<ReplacementView>)>)
    ensures
        reports_distinct(planned_reports(plans)),
        forall|k: int|
            0 <= k < planned_reports(plans).len() - 1 ==> path_lt(
                #[trigger] planned_reports(plans)[k].path,
                planned_reports(plans)[k + 1].path,
            ),
{
    lemma_group_plans_distinct(plans);
    lemma_sort_by_path_distinct(group_plans(plans));
    lemma_sort_by_path_sorted(group_plans(plans));
    let r = planned_reports(plans);
    assert forall|k: int| 0 <= k < r.len() - 1 implies path_lt(#[trigger] r[k].path, r[k + 1].path) by {
        assert(!path_lt(r[k + 1].path, r[k].path));
        assert(components(r[k].path) != components(r[k + 1].path));
        lemma_comps_lt_total(components(r[k].path), components(r[k + 1].path), 0);
    }
}

/// A path moves exactly when some move's source is the same path, component
/// for component, and it moves to the destination of the last such move:
/// a move of another file with the same name does not move it.
pub proof fn law_move_target_matches_source(moves: Seq<(Seq<char>, Seq<char>)>, p: Seq<char>)
    ensures
        move_target(moves, p) matches Some(d) ==> exists|k: int|
            0 <= k < moves.len() && components(#[trigger] moves[k].0) == components(p) && moves[k].1 == d
                && forall|k2: int| k < k2 < moves.len() ==> components(#[trigger] moves[k2].0) != components(p),
        move_target(moves, p) is None <==> forall|k: int|
            0 <= k < moves.len() ==> components(#[trigger] moves[k].0) != components(p),
    decreases moves.len(),
{
    if moves.len() > 0 {
        let m1 = moves.drop_last();
        let n = moves.len() - 1;
        law_move_target_matches_source(m1, p);
        assert(moves[n] == moves.last());
        if components(moves.last().0) == components(p) {
            assert(components(moves[n].0) == components(p));
        } else {
            match move_target(m1, p) {
                Some(d) => {
                    let k = choose|k: int|
                        0 <= k < m1.len() && components(#[trigger] m1[k].0) == components(p) && m1[k].1 == d
                            && forall|k2: int| k < k2 < m1.len() ==> components(#[trigger] m1[k2].0) != components(p);
                    assert(moves[k] == m1[k]);
                    assert forall|k2: int| k < k2 < moves.len() implies components(#[trigger] moves[k2].0) != components(p) by {
                        if k2 < n {
                            assert(moves[k2] == m1[k2]);
                        }
                    }
                },
                None => {
                    assert forall|k: int| 0 <= k < moves.len() implies components(#[trigger] moves[k].0) != components(p) by {
                        if k < n {
                            assert(moves[k] == m1[k]);
                        }
                    }
                },
            }
        }
        if move_target(moves, p) is None {
            assert(components(moves[n].0) != components(p));
            assert forall|k: int| 0 <= k < moves.len() implies components(#[trigger] moves[k].0) != components(p) by {
                if k < n {
                    assert(moves[k] == m1[k]);
                }
            }
        } else {
            if forall|k: int| 0 <= k < moves.len() ==> components(#[trigger] moves[k].0) != components(p) {
                assert(components(moves[n].0) != components(p));
                assert forall|k: int| 0 <= k < m1.len() implies components(#[trigger] m1[k].0) != components(p) by {
                    assert(moves[k] == m1[k]);
                }
            }
        }
    }
}

/// Deduplicating the sorted replacements drops only replacements that start
/// where a kept one starts: every start offset planned is still there, and
/// every kept replacement is one that was planned.
pub proof fn law_dedup_keeps_every_start(reps: Seq<ReplacementView>)
    ensures
        forall|i: int|
            #![trigger reps[i]]
            0 <= i < reps.len() ==> exists|j: int|
                0 <= j < dedup_by_start(sort_reps_by_start(reps)).len() && (#[trigger] dedup_by_start(
                    sort_reps_by_start(reps),
                )[j]).start == reps[i].start,
        forall|j: int|
            0 <= j < dedup_by_start(sort_reps_by_start(reps)).len() ==> reps.contains(
                #[trigger] dedup_by_start(sort_reps_by_start(reps))[j],
            ),
{
    broadcast use vstd::seq_lib::group_to_multiset_ensures;

    let s = sort_reps_by_start(reps);
    let d = dedup_by_start(s);
    lemma_sort_reps_multiset(reps);
    lemma_sort_reps_sorted(reps);
    lemma_dedup_strict(s);
    lemma_dedup_covers_starts(s);
    assert forall|i: int| #![trigger reps[i]] 0 <= i < reps.len() implies exists|j: int|
        0 <= j < d.len() && (#[trigger] d[j]).start == reps[i].start by {
        assert(reps.contains(reps[i]));
        assert(reps.to_multiset().count(reps[i]) > 0);
        assert(s.to_multiset().count(reps[i]) > 0);
        assert(s.contains(reps[i]));
        let m = choose|m: int| 0 <= m < s.len() && s[m] == reps[i];
        assert(s[m] == s[m]);
        let j = choose|j: int| 0 <= j < d.len() && (#[trigger] d[j]).start == s[m].start;
        assert(d[j].start == reps[i].start);
    }
    assert forall|j: int| 0 <= j < d.len() implies reps.contains(#[trigger] d[j]) by {
        assert(s.contains(d[j]));
        assert(s.to_multiset().count(d[j]) > 0);
        assert(reps.to_multiset().count(d[j]) > 0);
    }
}

pub proof fn lemma_dedup_covers_starts(s: Seq<ReplacementView>)
    ensures
        forall|m: int|
            #![trigger s[m]]
            0 <= m < s.len() ==> exists|j: int|
                0 <= j < dedup_by_start(s).len() && (#[trigger] dedup_by_start(s)[j]).start == s[m].start,
    decreases s.len(),
{
    if s.len() > 0 {
        let s1 = s.drop_last();
        lemma_dedup_covers_starts(s1);
        let d1 = dedup_by_start(s1);
        let d = dedup_by_start(s);
        assert forall|m: int| #![trigger s[m]] 0 <= m < s.len() implies exists|j: int|
            0 <= j < d.len() && (#[trigger] d[j]).start == s[m].start by {
            if m < s1.len() {
                assert(s[m] == s1[m]);
                let j = choose|j: int| 0 <= j < d1.len() && (#[trigger] d1[j]).start == s1[m].start;
                assert(d[j] == d1[j]);
            } else {
                assert(s[m] == s.last());
                if d1.len() > 0 && d1.last().start == s.last().start {
                    assert(d[d1.len() - 1] == d1.last());
                } else {
                    assert(d[d1.len() as int] == s.last());
                }
            }
        }
    }
}

/// The first replacement in `s` that starts at `v`, if any.
pub open spec fn first_at(s: Seq<ReplacementView>, v: int) -> Option<ReplacementView>
    decreases s.len(),
{
    if s.len() == 0 {
        None
    } else {
        match first_at(s.drop_last(), v) {
            Some(y) => Some(y),
            None => if s.last().start == v {
                Some(s.last())
            } else {
                None
            },
        }
    }
}

pub proof fn lemma_first_at_index(s: Seq<ReplacementView>, v: int)
    ensures
        first_at(s, v) matches Some(y) ==> exists|i: int|
            0 <= i < s.len() && #[trigger] s[i] == y && y.start == v && forall|i2: int|
                0 <= i2 < i ==> (#[trigger] s[i2]).start != v,
        first_at(s, v) is None ==> forall|i: int| 0 <= i < s.len() ==> (#[trigger] s[i]).start != v,
    decreases s.len(),
{
    if s.len() > 0 {
        let s1 = s.drop_last();
        lemma_first_at_index(s1, v);
        match first_at(s1, v) {
            Some(y) => {
                let i = choose|i: int|
                    0 <= i < s1.len() && #[trigger] s1[i] == y && y.start == v && forall|i2: int|
                        0 <= i2 < i ==> (#[trigger] s1[i2]).start != v;
                assert(s[i] == s1[i]);
                assert forall|i2: int| 0 <= i2 < i implies (#[trigger] s[i2]).start != v by {
                    assert(s[i2] == s1[i2]);
                }
            },
            None => {
                assert forall|i: int| 0 <= i < s.len() - 1 implies (#[trigger] s[i]).start != v by {
                    assert(s[i] == s1[i]);
                }
                if s.last().start == v {
                    assert(s[s.len() - 1] == s.last());
                } else {
                    assert forall|i: int| 0 <= i < s.len() implies (#[trigger] s[i]).start != v by {
                        if i < s.len() - 1 {
                            assert(s[i] == s1[i]);
                        }
                    }
                }
            },
        }
    }
}

pub proof fn lemma_first_at_push(a: Seq<ReplacementView>, q: ReplacementView, v: int)
    ensures
        first_at(a.push(q), v) == match first_at(a, v) {
            Some(y) => Some(y),
            None => if q.start == v {
                Some(q)
            } else {
                None
            },
        },
{
    assert(a.push(q).drop_last() =~= a);
    assert(a.push(q).last() == q);
}

pub proof fn lemma_first_at_insert(t: Seq<ReplacementView>, x: ReplacementView, v: int)
    ensures
        first_at(insert_rep_by_start(t, x), v) == first_at(t.push(x), v),
    decreases t.len(),
{
    if t.len() > 0 && t.last().start > x.start {
        let t1 = t.drop_last();
        let l = t.last();
        lemma_first_at_insert(t1, x, v);
        let r1 = insert_rep_by_start(t1, x);
        assert(insert_rep_by_start(t, x) == r1.push(l));
        lemma_first_at_push(r1, l, v);
        lemma_first_at_push(t1, x, v);
        lemma_first_at_push(t1, l, v);
        assert(t1.push(l) =~= t);
        lemma_first_at_push(t, x, v);
    } else if t.len() == 0 {
        assert(seq![x] =~= t.push(x));
    }
}

pub proof fn lemma_first_at_sort(s: Seq<ReplacementView>, v: int)
    ensures
        first_at(sort_reps_by_start(s), v) == first_at(s, v),
    decreases s.len(),
{
    if s.len() > 0 {
        let s1 = s.drop_last();
        lemma_first_at_sort(s1, v);
        let t = sort_reps_by_start(s1);
        lemma_first_at_insert(t, s.last(), v);
        lemma_first_at_push(t, s.last(), v);
        lemma_first_at_push(s1, s.last(), v);
        assert(s1.push(s.last()) =~= s);
    }
}

pub proof fn lemma_dedup_keeps_first(s: Seq<ReplacementView>)
    requires
        reps_sorted(s),
    ensures
        forall|j: int|
            0 <= j < dedup_by_start(s).len() ==> first_at(s, (#[trigger] dedup_by_start(s)[j]).start)
                == Some(dedup_by_start(s)[j]),
    decreases s.len(),
{
    if s.len() > 0 {
        let s1 = s.drop_last();
        let l = s.last();
        assert(reps_sorted(s1)) by {
            assert forall|i: int, j: int| 0 <= i < j < s1.len() implies s1[i].start <= s1[j].start by {
                assert(s1[i] == s[i] && s1[j] == s[j]);
            }
        }
        lemma_dedup_keeps_first(s1);
        lemma_dedup_strict(s1);
        lemma_dedup_covers_starts(s1);
        let d1 = dedup_by_start(s1);
        let d = dedup_by_start(s);
        assert forall|j: int| 0 <= j < d.len() implies first_at(s, (#[trigger] d[j]).start) == Some(d[j]) by {
            if j < d1.len() {
                assert(d[j] == d1[j]);
                assert(first_at(s1, d1[j].start) == Some(d1[j]));
            } else {
                assert(d[j] == l);
                lemma_first_at_index(s1, l.start);
                if first_at(s1, l.start) is Some {
                    let y = first_at(s1, l.start)->0;
                    let i = choose|i: int|
                        0 <= i < s1.len() && #[trigger] s1[i] == y && y.start == l.start && forall|i2: int|
                            0 <= i2 < i ==> (#[trigger] s1[i2]).start != l.start;
                    assert(s1[i].start == l.start);
                    let k = choose|k: int| 0 <= k < d1.len() && (#[trigger] d1[k]).start == s1[i].start;
                    assert(d1.len() > 0);
                    if k < d1.len() - 1 {
                        assert(d1[k].start < d1[d1.len() - 1].start);
                    }
                    assert(s1[s1.len() - 1].start <= s[s.len() - 1].start);
                    assert(d1.last().start == l.start);
                    assert(false);
                }
            }
        }
    }
}

/// Where several replacements start at the same offset, the one kept is the
/// first of them in the order they were planned, and it is kept as it was.
pub proof fn law_dedup_keeps_first_planned(reps: Seq<ReplacementView>)
    ensures
        forall|j: int|
            0 <= j < dedup_by_start(sort_reps_by_start(reps)).len() ==> exists|i: int|
                0 <= i < reps.len() && #[trigger] reps[i] == #[trigger] dedup_by_start(
                    sort_reps_by_start(reps),
                )[j] && forall|i2: int|
                    0 <= i2 < i ==> (#[trigger] reps[i2]).start != dedup_by_start(sort_reps_by_start(reps))[j].start,
{
    let s = sort_reps_by_start(reps);
    let d = dedup_by_start(s);
    lemma_sort_reps_sorted(reps);
    lemma_dedup_keeps_first(s);
    assert forall|j: int| 0 <= j < d.len() implies exists|i: int|
        0 <= i < reps.len() && #[trigger] reps[i] == #[trigger] d[j] && forall|i2: int|
            0 <= i2 < i ==> (#[trigger] reps[i2]).start != d[j].start by {
        lemma_first_at_sort(reps, d[j].start);
        lemma_first_at_index(reps, d[j].start);
    }
}

/// The changes planned for the files whose path has the components `c`, in
/// the order of the plans.
pub open spec fn changes_for(plans: Seq<(Seq<char>, Seq<ReplacementView>)>, c: Seq<Comp>) -> Seq<LinkChangeView>
    decreases plans.len(),
{
    if plans.len() == 0 {
        seq![]
    } else {
        changes_for(plans.drop_last(), c) + if components(plans.last().0) == c {
            changes_of(plans.last().1)
        } else {
            seq![]
        }
    }
}

pub proof fn lemma_changes_for_none(plans: Seq<(Seq<char>, Seq<ReplacementView>)>, c: Seq<Comp>)
    requires
        forall|k: int| 0 <= k < plans.len() && components(#[trigger] plans[k].0) == c ==> plans[k].1.len() == 0,
    ensures
        changes_for(plans, c) == Seq::<LinkChangeView>::empty(),
    decreases plans.len(),
{
    if plans.len() > 0 {
        let p1 = plans.drop_last();
        assert forall|k: int| 0 <= k < p1.len() && components(#[trigger] p1[k].0) == c implies p1[k].1.len() == 0 by {
            assert(p1[k] == plans[k]);
        }
        lemma_changes_for_none(p1, c);
        assert(plans[plans.len() - 1] == plans.last());
        assert(changes_of(Seq::<ReplacementView>::empty()) =~= Seq::<LinkChangeView>::empty());
        if components(plans.last().0) == c {
            assert(plans.last().1 =~= Seq::<ReplacementView>::empty());
        }
    }
}

pub proof fn lemma_group_plans_changes(plans: Seq<(Seq<char>, Seq<ReplacementView>)>)
    ensures
        forall|i: int|
            0 <= i < group_plans(plans).len() ==> (#[trigger] group_plans(plans)[i]).changes == changes_for(
                plans,
                components(group_plans(plans)[i].path),
            ),
        forall|k: int|
            0 <= k < plans.len() && (#[trigger] plans[k]).1.len() > 0 ==> exists|i: int|
                0 <= i < group_plans(plans).len() && components(#[trigger] group_plans(plans)[i].path)
                    == components(plans[k].0),
    decreases plans.len(),
{
    if plans.len() > 0 {
        let p1 = plans.drop_last();
        lemma_group_plans_changes(p1);
        lemma_group_plans_distinct(p1);
        let g = group_plans(p1);
        let (p, reps) = plans.last();
        let n = plans.len() - 1;
        assert(plans[n] == plans.last());
        let r = group_plans(plans);
        let cs = changes_of(reps);
        if reps.len() == 0 {
            assert(cs =~= Seq::<LinkChangeView>::empty());
            assert(r == g);
            assert forall|i: int| 0 <= i < r.len() implies (#[trigger] r[i]).changes == changes_for(plans, components(r[i].path)) by {
                assert(changes_for(plans, components(r[i].path)) =~= changes_for(p1, components(r[i].path)));
            }
            assert forall|k: int| 0 <= k < plans.len() && (#[trigger] plans[k]).1.len() > 0 implies exists|i: int|
                0 <= i < r.len() && components(#[trigger] r[i].path) == components(plans[k].0) by {
                assert(k < n);
                assert(plans[k] == p1[k]);
            }
        } else {
            match report_index_from(g, p, 0) {
                Some(m) => {
                    lemma_report_index_from(g, p, 0);
                    assert(components(g[m].path) == components(p));
                    assert forall|i: int| 0 <= i < r.len() implies (#[trigger] r[i]).changes == changes_for(plans, components(r[i].path)) by {
                        assert(r[i].path == g[i].path);
                        if i != m {
                            assert(r[i] == g[i]);
                            assert(components(g[i].path) != components(g[m].path));
                            assert(changes_for(plans, components(r[i].path)) =~= changes_for(p1, components(r[i].path)));
                        }
                    }
                    assert forall|k: int| 0 <= k < plans.len() && (#[trigger] plans[k]).1.len() > 0 implies exists|i: int|
                        0 <= i < r.len() && components(#[trigger] r[i].path) == components(plans[k].0) by {
                        if k < n {
                            assert(plans[k] == p1[k]);
                            let i = choose|i: int| 0 <= i < g.len() && components(#[trigger] g[i].path) == components(p1[k].0);
                            assert(r[i].path == g[i].path);
                        } else {
                            assert(r[m].path == g[m].path);
                        }
                    }
                },
                None => {
                    lemma_report_index_none(g, p, 0);
                    assert forall|k: int| 0 <= k < p1.len() && components(#[trigger] p1[k].0) == components(p) implies p1[k].1.len() == 0 by {
                        if p1[k].1.len() > 0 {
                            let i = choose|i: int| 0 <= i < g.len() && components(#[trigger] g[i].path) == components(p1[k].0);
                        }
                    }
                    lemma_changes_for_none(p1, components(p));
                    assert forall|i: int| 0 <= i < r.len() implies (#[trigger] r[i]).changes == changes_for(plans, components(r[i].path)) by {
                        if i < g.len() {
                            assert(r[i] == g[i]);
                            assert(changes_for(plans, components(r[i].path)) =~= changes_for(p1, components(r[i].path)));
                        } else {
                            assert(r[i].path == p);
                            assert(changes_for(plans, components(p)) =~= cs);
                        }
                    }
                    assert forall|k: int| 0 <= k < plans.len() && (#[trigger] plans[k]).1.len() > 0 implies exists|i: int|
                        0 <= i < r.len() && components(#[trigger] r[i].path) == components(plans[k].0) by {
                        if k < n {
                            assert(plans[k] == p1[k]);
                            let i = choose|i: int| 0 <= i < g.len() && components(#[trigger] g[i].path) == components(p1[k].0);
                            assert(r[i] == g[i]);
                        } else {
                            assert(r[g.len() as int].path == p);
                        }
                    }
                },
            }
        }
    }
}

pub proof fn lemma_insert_by_path_keeps(t: Seq<FileReportView>, x: FileReportView)
    ensures
        insert_by_path(t, x).contains(x),
        forall|k: int| 0 <= k < t.len() ==> insert_by_path(t, x).contains(#[trigger] t[k]),
    decreases t.len(),
{
    let r = insert_by_path(t, x);
    if t.len() == 0 {
        assert(r[0] == x);
    } else if !path_lt(x.path, t.last().path) {
        assert(r[t.len() as int] == x);
        assert forall|k: int| 0 <= k < t.len() implies r.contains(#[trigger] t[k]) by {
            assert(r[k] == t[k]);
        }
    } else {
        let t1 = t.drop_last();
        lemma_insert_by_path_keeps(t1, x);
        let r1 = insert_by_path(t1, x);
        let i = choose|i: int| 0 <= i < r1.len() && r1[i] == x;
        assert(r[i] == r1[i]);
        assert forall|k: int| 0 <= k < t.len() implies r.contains(#[trigger] t[k]) by {
            if k < t1.len() {
                assert(t[k] == t1[k]);
                let i = choose|i: int| 0 <= i < r1.len() && r1[i] == t1[k];
                assert(r[i] == r1[i]);
            } else {
                assert(r[r1.len() as int] == t.last());
            }
        }
    }
}

pub proof fn lemma_sort_by_path_keeps(s: Seq<FileReportView>)
    ensures
        forall|k: int| 0 <= k < s.len() ==> sort_by_path(s).contains(#[trigger] s[k]),
        forall|i: int| 0 <= i < sort_by_path(s).len() ==> s.contains(#[trigger] sort_by_path(s)[i]),
    decreases s.len(),
{
    if s.len() > 0 {
        let s1 = s.drop_last();
        lemma_sort_by_path_keeps(s1);
        let t = sort_by_path(s1);
        lemma_insert_by_path_keeps(t, s.last());
        lemma_insert_by_path_members(t, s.last());
        let r = sort_by_path(s);
        assert forall|k: int| 0 <= k < s.len() implies r.contains(#[trigger] s[k]) by {
            if k < s1.len() {
                assert(s[k] == s1[k]);
                let i = choose|i: int| 0 <= i < t.len() && t[i] == s1[k];
                assert(r.contains(t[i]));
            }
        }
        assert forall|i: int| 0 <= i < r.len() implies s.contains(#[trigger] r[i]) by {
            if r[i] == s.last() {
                assert(s[s.len() - 1] == s.last());
            } else {
                let k = choose|k: int| 0 <= k < t.len() && t[k] == r[i];
                let m = choose|m: int| 0 <= m < s1.len() && s1[m] == t[k];
                assert(s[m] == s1[m]);
            }
        }
    }
}

/// Each report of a move holds exactly the changes planned for its own path
/// (component for component), in the order of the plans, and every file
/// with planned changes has a report: changes are never attributed to
/// another file, not even one with the same name.
pub proof fn law_reports_hold_their_own_changes(plans: Seq<(Seq<char>, Seq<ReplacementView>)>)
    ensures
        forall|i: int|
            0 <= i < planned_reports(plans).len() ==> (#[trigger] planned_reports(plans)[i]).changes
                == changes_for(plans, components(planned_reports(plans)[i].path)),
        forall|k: int|
            0 <= k < plans.len() && (#[trigger] plans[k]).1.len() > 0 ==> exists|i: int|
                0 <= i < planned_reports(plans).len() && components(#[trigger] planned_reports(plans)[i].path)
                    == components(plans[k].0),
{
    lemma_group_plans_changes(plans);
    let g = group_plans(plans);
    let r = planned_reports(plans);
    lemma_sort_by_path_keeps(g);
    assert forall|i: int| 0 <= i < r.len() implies (#[trigger] r[i]).changes == changes_for(plans, components(r[i].path)) by {
        let m = choose|m: int| 0 <= m < g.len() && g[m] == r[i];
        assert(g[m].changes == changes_for(plans, components(g[m].path)));
    }
    assert forall|k: int| 0 <= k < plans.len() && (#[trigger] plans[k]).1.len() > 0 implies exists|i: int|
        0 <= i < r.len() && components(#[trigger] r[i].path) == components(plans[k].0) by {
        let m = choose|m: int| 0 <= m < g.len() && components(#[trigger] g[m].path) == components(plans[k].0);
        assert(r.contains(g[m]));
        let i = choose|i: int| 0 <= i < r.len() && r[i] == g[m];
    }
}

/// A destination that is an existing directory is taken as a directory,
/// in a dry run as in a real one, so a dry run pairs the sources exactly
/// as the real run does; a dry run also takes a destination that ends in
/// `/` as a directory, and a real run goes by the disk alone.
pub proof fn law_existing_directory_is_a_directory(srcs: Seq<Seq<char>>, dest: Seq<char>, dry_run: bool, is_dir_on_disk: bool)
    ensures
        is_dir_on_disk ==> dest_taken_as_dir(dest, dry_run, is_dir_on_disk),
        move_pairs(srcs, dest, true, true) == move_pairs(srcs, dest, false, true),
        dest.len() > 0 && dest.last() == '/' ==> dest_taken_as_dir(dest, true, is_dir_on_disk),
        dest_taken_as_dir(dest, false, is_dir_on_disk) == is_dir_on_disk,
{
}

} // verus!

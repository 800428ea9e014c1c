//! Rewriting hrefs: resolving them to absolute paths, and computing the new
//! href of a link whose file or whose target moved.

use vstd::prelude::*;
use crate::parser::{is_external_chars, find_char, path_part, fragment, spec_is_external, index_of, lemma_index_of_from, is_ascii_letter, is_scheme_char};
use crate::path::{
    join_chars, join_path, normalized, path_components, normalize_comps, render_components,
    relative_comps, relative_path, dot, dot_dot, components, common_prefix_len, comp_name, Comp,
    is_normal_absolute, lemma_relative_components_shape, relative_components, render, join_names,
    is_relative_step, lemma_join_names_lacks, segment_comps, segments, segments_comps, lemma_segments_concat,
    lemma_segments_comps_concat, lemma_join_names_segments, lemma_join_names_front, lemma_step_name,
    lemma_segments_no_slash, lemma_relative_steps_resolve, law_relative_path_leads_back,
    climbs_over_names, is_absolute, lemma_normal_absolute_components,
    lemma_normalized_is_normal_absolute,
};
use crate::text::{string_from_chars, to_chars, copy_chars};

pub use crate::path::{make_relative, normalize_path};

verus! {

/// Where an href leads from a file in directory `dir`: nowhere for an empty
/// href, an anchor-only href or an absolute URL; otherwise the normal form
/// of its path part joined onto `dir`.
pub open spec fn resolved_href(href: Seq<char>, dir: Seq<char>) -> Option<Seq<char>> {
    if href.len() == 0 || href[0] == '#' || spec_is_external(href) {
        None
    } else {
        Some(normalized(join_path(dir, path_part(href))))
    }
}

/// The normal form of the characters of a path.
pub fn normalize_chars(p: &Vec<char>) -> (out: Vec<char>)
    ensures
        out@ == normalized(p@),
{
    let cs = path_components(p);
    let norm = normalize_comps(&cs);
    render_components(&norm)
}

/// The part of an href before its first `#`.
pub fn path_part_chars(href: &Vec<char>) -> (out: Vec<char>)
    ensures
        out@ == path_part(href@),
{
    match find_char(href, '#', 0) {
        Some(hash) => {
            let mut out: Vec<char> = Vec::new();
            for k in 0..hash
                invariant
                    hash <= href@.len(),
                    out@ == href@.take(k as int),
            {
                out.push(href[k]);
            }
            out
        },
        None => copy_chars(href),
    }
}

/// Where the characters of an href lead from directory `dir`.
pub fn resolve_href_chars(href: &Vec<char>, dir: &Vec<char>) -> (out: Option<Vec<char>>)
    ensures
        match out {
            Some(p) => resolved_href(href@, dir@) == Some(p@),
            None => resolved_href(href@, dir@) is None,
        },
{
    if href.len() == 0 || href[0] == '#' || is_external_chars(href) {
        return None;
    }
    let part = path_part_chars(href);
    let raw = join_chars(dir, &part);
    Some(normalize_chars(&raw))
}

/// Resolve a markdown href (possibly relative) to an absolute normalized path.
/// Returns `None` for external URLs or anchor-only hrefs.
pub fn resolve_href(href: &str, file_dir: &str) -> (out: Option<String>)
    ensures
        match out {
            Some(p) => resolved_href(href@, file_dir@) == Some(p@),
            None => resolved_href(href@, file_dir@) is None,
        },
{
    let h = to_chars(href);
    let d = to_chars(file_dir);
    match resolve_href_chars(&h, &d) {
        Some(p) => Some(string_from_chars(&p)),
        None => None,
    }
}


/// Whether `s` starts with `p`.
pub open spec fn starts_with(s: Seq<char>, p: Seq<char>) -> bool {
    p.len() <= s.len() && s.take(p.len() as int) == p
}

/// `s` with every backslash turned into a forward slash.
pub open spec fn forward_slashes(s: Seq<char>) -> Seq<char> {
    Seq::new(s.len(), |i: int| if s[i] == '\\' { '/' } else { s[i] })
}

/// `s`, with `./` put in front unless it already starts with `..`, `/` or
/// `./`.
pub open spec fn with_dot_slash(s: Seq<char>) -> Seq<char> {
    if starts_with(s, seq!['.', '.']) || starts_with(s, seq!['/']) || starts_with(s, seq!['.', '/']) {
        s
    } else {
        seq!['.', '/'] + s
    }
}

/// An optional fragment as text (empty where there is none).
pub open spec fn fragment_text(f: Option<Seq<char>>) -> Seq<char> {
    match f {
        Some(t) => t,
        None => Seq::empty(),
    }
}

/// The href written for a relative path `rel` that keeps the fragment `frag`:
/// forward slashes, a `./` in front where it starts with a plain name, then
/// the fragment.
pub open spec fn href_for(rel: Seq<char>, frag: Option<Seq<char>>) -> Seq<char> {
    with_dot_slash(forward_slashes(rel)) + fragment_text(frag)
}

/// The href of a link in a file that moved from directory `old_dir` to
/// `new_dir`: the same target, reached from the new directory; unchanged
/// where its path part leads nowhere.
pub open spec fn rebased_href(href: Seq<char>, old_dir: Seq<char>, new_dir: Seq<char>) -> Seq<char> {
    match resolved_href(path_part(href), old_dir) {
        Some(target) => href_for(relative_path(new_dir, target), fragment(href)),
        None => href,
    }
}

/// The href of a link in directory `src_dir` whose target moved to
/// `new_target`, with the link's fragment kept.
pub open spec fn retargeted_href(href: Seq<char>, src_dir: Seq<char>, new_target: Seq<char>) -> Seq<char> {
    href_for(relative_path(src_dir, new_target), fragment(href))
}

/// The fragment of an href, as characters (empty where there is none).
pub fn fragment_chars(href: &Vec<char>) -> (out: Vec<char>)
    ensures
        out@ == fragment_text(fragment(href@)),
{
    let mut out: Vec<char> = Vec::new();
    match find_char(href, '#', 0) {
        Some(hash) => {
            for k in hash..href.len()
                invariant
                    hash <= href@.len(),
                    out@ == href@.subrange(hash as int, k as int),
            {
                out.push(href[k]);
            }
            assert(href@.subrange(hash as int, href@.len() as int) =~= href@.skip(hash as int));
        },
        None => {},
    }
    out
}

/// The href for the relative path `rel` with the fragment text `frag`.
pub fn href_for_chars(rel: &Vec<char>, frag: &Vec<char>) -> (out: Vec<char>)
    ensures
        out@ == with_dot_slash(forward_slashes(rel@)) + frag@,
{
    let mut fwd: Vec<char> = Vec::new();
    for k in 0..rel.len()
        invariant
            fwd@ =~= forward_slashes(rel@).take(k as int),
    {
        if rel[k] == '\\' {
            fwd.push('/');
        } else {
            fwd.push(rel[k]);
        }
    }
    assert(fwd@ =~= forward_slashes(rel@));
    let n = fwd.len();
    let dotdot = n >= 2 && fwd[0] == '.' && fwd[1] == '.';
    let slash = n >= 1 && fwd[0] == '/';
    let dotslash = n >= 2 && fwd[0] == '.' && fwd[1] == '/';
    assert(dotdot == starts_with(fwd@, seq!['.', '.'])) by {
        if n >= 2 {
            assert(fwd@.take(2) =~= seq![fwd@[0], fwd@[1]]);
        }
    }
    assert(slash == starts_with(fwd@, seq!['/'])) by {
        if n >= 1 {
            assert(fwd@.take(1) =~= seq![fwd@[0]]);
        }
    }
    assert(dotslash == starts_with(fwd@, seq!['.', '/'])) by {
        if n >= 2 {
            assert(fwd@.take(2) =~= seq![fwd@[0], fwd@[1]]);
        }
    }
    let mut out: Vec<char> = Vec::new();
    if !(dotdot || slash || dotslash) {
        out.push('.');
        out.push('/');
    }
    let ghost head = out@;
    crate::text::append_chars(&mut out, &fwd);
    crate::text::append_chars(&mut out, frag);
    proof {
        if !(dotdot || slash || dotslash) {
            assert(head =~= seq!['.', '/']);
        } else {
            assert(head =~= Seq::<char>::empty());
        }
    }
    assert(out@ =~= with_dot_slash(forward_slashes(rel@)) + frag@);
    out
}

/// The characters of the relative path from directory `from` to `to`.
pub fn relative_path_chars(from: &Vec<char>, to: &Vec<char>) -> (out: Vec<char>)
    ensures
        out@ == relative_path(from@, to@),
{
    let f = path_components(from);
    let t = path_components(to);
    let rel = relative_comps(&f, &t);
    let mut chars = render_components(&rel);
    if chars.len() == 0 {
        chars.push('.');
        assert(chars@ =~= dot());
    }
    chars
}

/// Rewrite a link that lives inside a file that has moved.
///
/// `href`        — the href as written in the file
/// `old_src_dir` — the directory the file was in before moving
/// `new_src_dir` — the directory the file is in after moving
///
/// The *target* of the link hasn't changed; only the file containing it moved.
pub fn rebase_link(href: &str, old_src_dir: &str, new_src_dir: &str) -> (out: String)
    ensures
        out@ == rebased_href(href@, old_src_dir@, new_src_dir@),
{
    let h = to_chars(href);
    let part = path_part_chars(&h);
    let old_dir = to_chars(old_src_dir);
    match resolve_href_chars(&part, &old_dir) {
        None => string_from_chars(&h),
        Some(target) => {
            let new_dir = to_chars(new_src_dir);
            let rel = relative_path_chars(&new_dir, &target);
            let frag = fragment_chars(&h);
            let out = href_for_chars(&rel, &frag);
            string_from_chars(&out)
        },
    }
}

/// Rewrite a link that points to a file that has moved.
///
/// `href`       — the href as written in the containing file
/// `src_dir`    — the directory of the *containing* file (which hasn't moved)
/// `new_target` — the new absolute, normalized path of the target file
pub fn retarget_link(href: &str, src_dir: &str, new_target: &str) -> (out: String)
    ensures
        out@ == retargeted_href(href@, src_dir@, new_target@),
{
    let h = to_chars(href);
    let dir = to_chars(src_dir);
    let target = to_chars(new_target);
    let rel = relative_path_chars(&dir, &target);
    let frag = fragment_chars(&h);
    let out = href_for_chars(&rel, &frag);
    string_from_chars(&out)
}

/// Whether a link from directory `dir` to `target` can be written as a
/// relative href that leads back to `target`: the components of `dir` that
/// it climbs out of are names, and the names of `target` below the part the
/// two paths share hold no `#` and no `\`.
pub open spec fn writable_relative(dir: Seq<char>, target: Seq<char>) -> bool {
    let cd = components(dir);
    let ct = components(target);
    let c = common_prefix_len(cd, ct);
    let tail = ct.skip(c as int);
    &&& climbs_over_names(cd, ct)
    &&& forall|k: int|
        0 <= k < tail.len() ==> !comp_name(#[trigger] tail[k]).contains('#') && !comp_name(
            tail[k],
        ).contains('\\')
}

/// The fragment of an href starts with `#`.
pub proof fn lemma_fragment_shape(href: Seq<char>)
    ensures
        fragment(href) matches Some(f) ==> f.len() > 0 && f[0] == '#',
        !path_part(href).contains('#'),
{
    crate::parser::law_fragment_split_rejoins(href);
}

/// An href that starts with `.` is no URL.
pub proof fn lemma_dot_not_external(h: Seq<char>)
    requires
        h.len() > 0,
        h[0] == '.',
    ensures
        !spec_is_external(h),
{
    assert(!is_ascii_letter(h[0]));
}

/// An href that is neither empty, nor an anchor, nor an absolute URL leads
/// where its path part leads.
pub proof fn lemma_resolved_path_part(h: Seq<char>, dir: Seq<char>)
    requires
        h.len() > 0,
        h[0] != '#',
        !spec_is_external(h),
    ensures
        resolved_href(path_part(h), dir) == resolved_href(h, dir),
{
    let pp = path_part(h);
    lemma_fragment_shape(h);
    lemma_index_of_from(h, '#', 0);
    match index_of(h, '#') {
        Some(i) => {
            assert(i != 0);
            assert(pp.len() > 0 && pp[0] == h[0]);
        },
        None => {},
    }
    lemma_index_of_from(pp, '#', 0);
    match index_of(pp, '#') {
        Some(i) => {
            assert(pp.contains('#'));
        },
        None => {},
    }
    assert(path_part(pp) == pp);
    assert(pp.len() <= h.len());
    assert forall|k: int| 0 <= k < pp.len() implies #[trigger] pp[k] == h[k] by {}
    assert(pp.len() > 0);
    assert(pp[0] != '#');
    lemma_index_of_from(pp, ':', 0);
    lemma_index_of_from(h, ':', 0);
    match index_of(pp, ':') {
        Some(i) => {
            assert(pp[i] == h[i]);
            match index_of(h, ':') {
                Some(j) => {
                    if j < i {
                        assert(pp[j] == h[j]);
                    }
                    assert(j == i);
                    if spec_is_external(pp) {
                        assert forall|k: int| 0 <= k < j implies is_scheme_char(#[trigger] h[k]) by {
                            assert(pp[k] == h[k]);
                            assert(is_scheme_char(pp[k]));
                        }
                        assert(spec_is_external(h));
                    }
                },
                None => {},
            }
        },
        None => {},
    }
}

/// Where an href leads from an absolute directory is an absolute path in
/// normal form.
pub proof fn lemma_resolved_is_normal_absolute(href: Seq<char>, dir: Seq<char>)
    requires
        is_absolute(dir),
        resolved_href(href, dir) is Some,
    ensures
        is_normal_absolute(resolved_href(href, dir)->0),
{
    let j = join_path(dir, path_part(href));
    assert(j[0] == '/');
    lemma_normalized_is_normal_absolute(j);
}

/// A path free of `#` followed by a fragment splits back into the two.
pub proof fn lemma_split_appended_fragment(a: Seq<char>, frag: Option<Seq<char>>)
    requires
        !a.contains('#'),
        frag matches Some(f) ==> f.len() > 0 && f[0] == '#',
    ensures
        path_part(a + fragment_text(frag)) == a,
        fragment(a + fragment_text(frag)) == frag,
{
    let h = a + fragment_text(frag);
    lemma_index_of_from(h, '#', 0);
    match frag {
        Some(f) => {
            assert(h[a.len() as int] == '#');
            match index_of(h, '#') {
                Some(j) => {
                    if j < a.len() {
                        assert(a[j] == '#');
                    }
                    assert(j == a.len());
                    assert(h.take(j) =~= a);
                    assert(h.skip(j) =~= f);
                },
                None => {},
            }
        },
        None => {
            assert(h =~= a);
            match index_of(h, '#') {
                Some(j) => {
                    assert(a[j] == '#');
                },
                None => {},
            }
        },
    }
}

proof fn lemma_dot_segments()
    ensures
        segments(dot()) == seq![dot()],
        segments_comps(seq![dot()]) == Seq::<Comp>::empty(),
        !dot().contains('/'),
{
    assert(!dot().contains('/')) by {
        if dot().contains('/') {
            let k = choose|k: int| 0 <= k < dot().len() && dot()[k] == '/';
        }
    }
    lemma_segments_no_slash(dot());
    assert(seq![dot()].drop_last() =~= Seq::<Seq<char>>::empty());
    assert(seq![dot()].last() == dot());
    assert(segment_comps(dot()) =~= Seq::<Comp>::empty());
    assert(segments_comps(seq![dot()].drop_last()) =~= Seq::<Comp>::empty());
    assert(segments_comps(seq![dot()]) =~= Seq::<Comp>::empty());
}

/// The relative path from one absolute path in normal form to another that
/// is writable relative to it holds neither `#` nor `\\`.
proof fn lemma_relative_path_plain(dir: Seq<char>, target: Seq<char>)
    requires
        is_normal_absolute(dir),
        is_normal_absolute(target),
        writable_relative(dir, target),
    ensures
        !relative_path(dir, target).contains('#'),
        !relative_path(dir, target).contains('\\'),
        forward_slashes(relative_path(dir, target)) == relative_path(dir, target),
{
    lemma_normal_absolute_components(dir);
    lemma_normal_absolute_components(target);
    let cd = components(dir);
    let ct = components(target);
    lemma_relative_components_shape(cd, ct);
    let c = common_prefix_len(cd, ct);
    let u = (cd.len() - c) as nat;
    let tail = ct.skip(c as int);
    let rc = relative_components(cd, ct);
    let r = render(rc);
    let rel = relative_path(dir, target);
    if rc.len() > 0 {
        assert(rc[0] != Comp::Root) by {
            assert(is_relative_step(rc[0]));
        }
    }
    assert(r == join_names(rc));
    assert forall|k: int| 0 <= k < rc.len() implies !comp_name(#[trigger] rc[k]).contains('#')
        && !comp_name(rc[k]).contains('\\') by {
        if k < u {
            assert(rc[k] == Comp::Parent);
            assert(!dot_dot().contains('#')) by {
                if dot_dot().contains('#') {
                    let j = choose|j: int| 0 <= j < dot_dot().len() && dot_dot()[j] == '#';
                }
            }
            assert(!dot_dot().contains('\\')) by {
                if dot_dot().contains('\\') {
                    let j = choose|j: int| 0 <= j < dot_dot().len() && dot_dot()[j] == '\\';
                }
            }
        } else {
            assert(rc[k] == tail[k - u]);
        }
    }
    lemma_join_names_lacks(rc, '#');
    lemma_join_names_lacks(rc, '\\');
    assert(!dot().contains('#')) by {
        if dot().contains('#') {
            let j = choose|j: int| 0 <= j < dot().len() && dot()[j] == '#';
        }
    }
    assert(!dot().contains('\\')) by {
        if dot().contains('\\') {
            let j = choose|j: int| 0 <= j < dot().len() && dot()[j] == '\\';
        }
    }
    assert(!rel.contains('#'));
    assert(!rel.contains('\\'));
    assert(forward_slashes(rel) =~= rel) by {
        assert forall|i: int| 0 <= i < rel.len() implies rel[i] != '\\' by {
            if rel[i] == '\\' {
                assert(rel.contains('\\'));
            }
        }
    }
}

/// The first step of the relative path from one absolute path in normal
/// form to another, where there is one: it is written first, and it is
/// neither `/` nor `./`.
proof fn lemma_relative_path_first_step(dir: Seq<char>, target: Seq<char>)
    requires
        is_normal_absolute(dir),
        is_normal_absolute(target),
        writable_relative(dir, target),
        relative_components(components(dir), components(target)).len() > 0,
    ensures
        ({
            let rc = relative_components(components(dir), components(target));
            let rel = relative_path(dir, target);
            let n0 = comp_name(rc[0]);
            &&& rel == join_names(rc)
            &&& segments_comps(segments(rel)) == rc
            &&& 1 <= n0.len() <= rel.len()
            &&& rel.take(n0.len() as int) == n0
            &&& n0.len() < rel.len() ==> rel[n0.len() as int] == '/'
            &&& !starts_with(rel, seq!['/'])
            &&& !starts_with(rel, seq!['.', '/'])
        }),
{
    lemma_normal_absolute_components(dir);
    lemma_normal_absolute_components(target);
    let cd = components(dir);
    let ct = components(target);
    lemma_relative_components_shape(cd, ct);
    let rc = relative_components(cd, ct);
    let r = render(rc);
    assert(rc[0] != Comp::Root) by {
        assert(is_relative_step(rc[0]));
    }
    assert(r == join_names(rc));
    lemma_join_names_segments(rc);
    let first = rc[0];
    let rest = rc.skip(1);
    assert(rc =~= seq![first] + rest);
    lemma_join_names_front(first, rest);
    assert(is_relative_step(first));
    lemma_step_name(first);
    let n0 = comp_name(first);
    assert(n0.len() >= 1 && n0 != dot());
    assert(r.take(n0.len() as int) =~= n0);
    assert(r[0] == n0[0]);
    assert(n0[0] != '/') by {
        assert(!n0.contains('/'));
    }
    assert(!starts_with(r, seq!['/'])) by {
        if starts_with(r, seq!['/']) {
            assert(r.take(1)[0] == '/');
        }
    }
    assert(!starts_with(r, seq!['.', '/'])) by {
        if starts_with(r, seq!['.', '/']) {
            assert(r.take(2)[1] == '/');
            assert(r[1] == '/');
            if n0.len() == 1 {
                assert(n0 =~= dot());
            } else {
                assert(n0[1] == r[1]);
                assert(n0.contains('/'));
            }
        }
    }
    if rest.len() == 0 {
        assert(r =~= n0);
    }
}

/// The path part of the href written for the relative path from `dir` to
/// `target` reads back as the steps of that path and starts with `.`, so
/// that the href is no URL.
proof fn lemma_href_reads_as_steps(dir: Seq<char>, target: Seq<char>, frag: Option<Seq<char>>)
    requires
        is_normal_absolute(dir),
        is_normal_absolute(target),
        writable_relative(dir, target),
        frag matches Some(f) ==> f.len() > 0 && f[0] == '#',
    ensures
        ({
            let rel = relative_path(dir, target);
            let hp = with_dot_slash(rel);
            &&& rel.len() > 0
            &&& hp.len() > 0
            &&& hp[0] == '.'
            &&& segments_comps(segments(hp)) == relative_components(components(dir), components(target))
            &&& !spec_is_external(hp + fragment_text(frag))
            &&& starts_with(rel, seq!['.', '.']) ==> hp == rel
            &&& !starts_with(rel, seq!['.', '.']) ==> hp == seq!['.', '/'] + rel
        }),
{
    lemma_normal_absolute_components(dir);
    lemma_normal_absolute_components(target);
    let cd = components(dir);
    let ct = components(target);
    lemma_relative_components_shape(cd, ct);
    let rc = relative_components(cd, ct);
    let rel = relative_path(dir, target);
    let hp = with_dot_slash(rel);
    let h = hp + fragment_text(frag);
    lemma_dot_segments();
    if rc.len() == 0 {
        assert(rel == dot());
        assert(!starts_with(rel, seq!['.', '.']));
        assert(!starts_with(rel, seq!['/'])) by {
            assert(rel.take(1) =~= seq!['.']);
        }
        assert(!starts_with(rel, seq!['.', '/']));
        assert(hp =~= dot() + seq!['/'] + dot());
        lemma_segments_concat(dot(), dot());
        lemma_segments_comps_concat(seq![dot()], seq![dot()]);
        assert(segments_comps(segments(hp)) =~= rc);
    } else {
        lemma_relative_path_first_step(dir, target);
        let n0 = comp_name(rc[0]);
        if starts_with(rel, seq!['.', '.']) {
            assert(hp == rel);
            assert(rel[0] == rel.take(2)[0]);
        } else {
            assert(hp =~= dot() + seq!['/'] + rel);
            lemma_segments_concat(dot(), rel);
            lemma_segments_comps_concat(seq![dot()], segments(rel));
            assert(segments_comps(segments(hp)) =~= rc);
        }
    }
    assert(h[0] == hp[0]);
    lemma_dot_not_external(h);
}

/// The href written for the relative path from `dir` to `target`, with any
/// fragment, leads from `dir` back to `target` and keeps the fragment; so
/// does that href without its leading `./`, where it has one and does not
/// then read as an absolute URL.
pub proof fn lemma_href_for_resolves(dir: Seq<char>, target: Seq<char>, frag: Option<Seq<char>>)
    requires
        is_normal_absolute(dir),
        is_normal_absolute(target),
        writable_relative(dir, target),
        frag matches Some(f) ==> f.len() > 0 && f[0] == '#',
    ensures
        resolved_href(href_for(relative_path(dir, target), frag), dir) == Some(target),
        fragment(href_for(relative_path(dir, target), frag)) == frag,
        ({
            let h = href_for(relative_path(dir, target), frag);
            starts_with(h, seq!['.', '/']) && !spec_is_external(h.skip(2)) ==> resolved_href(
                h.skip(2),
                dir,
            ) == Some(target) && fragment(h.skip(2)) == frag
        }),
{
    lemma_href_leads_to_target(dir, target, frag);
    lemma_stripped_href_leads_to_target(dir, target, frag);
}

/// The path part of the written href holds no `#`.
proof fn lemma_dot_slash_path_plain(dir: Seq<char>, target: Seq<char>)
    requires
        is_normal_absolute(dir),
        is_normal_absolute(target),
        writable_relative(dir, target),
    ensures
        !with_dot_slash(relative_path(dir, target)).contains('#'),
{
    let rel = relative_path(dir, target);
    lemma_relative_path_plain(dir, target);
    let hp = with_dot_slash(rel);
    if hp.contains('#') {
        let j = choose|j: int| 0 <= j < hp.len() && hp[j] == '#';
        if hp != rel {
            assert(hp == seq!['.', '/'] + rel);
            assert(rel[j - 2] == '#');
        }
    }
}

/// The written href leads from `dir` to `target` and keeps the fragment.
proof fn lemma_href_leads_to_target(dir: Seq<char>, target: Seq<char>, frag: Option<Seq<char>>)
    requires
        is_normal_absolute(dir),
        is_normal_absolute(target),
        writable_relative(dir, target),
        frag matches Some(f) ==> f.len() > 0 && f[0] == '#',
    ensures
        resolved_href(href_for(relative_path(dir, target), frag), dir) == Some(target),
        fragment(href_for(relative_path(dir, target), frag)) == frag,
{
    let rel = relative_path(dir, target);
    lemma_relative_path_plain(dir, target);
    lemma_href_reads_as_steps(dir, target, frag);
    lemma_dot_slash_path_plain(dir, target);
    let hp = with_dot_slash(rel);
    let h = href_for(rel, frag);
    assert(h == hp + fragment_text(frag));
    lemma_split_appended_fragment(hp, frag);
    assert(h[0] == hp[0]);
    lemma_relative_steps_resolve(dir, target, hp);
}

/// The written href without its leading `./`, where it has one and does not
/// then read as an absolute URL, still leads from `dir` to `target` and
/// keeps the fragment.
proof fn lemma_stripped_href_leads_to_target(dir: Seq<char>, target: Seq<char>, frag: Option<Seq<char>>)
    requires
        is_normal_absolute(dir),
        is_normal_absolute(target),
        writable_relative(dir, target),
        frag matches Some(f) ==> f.len() > 0 && f[0] == '#',
    ensures
        ({
            let h = href_for(relative_path(dir, target), frag);
            starts_with(h, seq!['.', '/']) && !spec_is_external(h.skip(2)) ==> resolved_href(
                h.skip(2),
                dir,
            ) == Some(target) && fragment(h.skip(2)) == frag
        }),
{
    let rel = relative_path(dir, target);
    lemma_relative_path_plain(dir, target);
    lemma_href_reads_as_steps(dir, target, frag);
    let hp = with_dot_slash(rel);
    let h = href_for(rel, frag);
    assert(h == hp + fragment_text(frag));
    let y = h.skip(2);
    if starts_with(h, seq!['.', '/']) && !spec_is_external(y) {
        if starts_with(rel, seq!['.', '.']) {
            assert(hp == rel);
            assert(h[1] == rel[1]);
            assert(rel.take(2)[1] == '.');
            assert(h.take(2)[1] == '/');
        } else {
            assert(y =~= rel + fragment_text(frag));
            lemma_split_appended_fragment(rel, frag);
            law_relative_path_leads_back(dir, target);
            assert(y[0] == rel[0]);
            assert(rel[0] != '#') by {
                assert(!rel.contains('#'));
            }
        }
    }
}

/// A link retargeted at a file that moved leads, from the directory of the
/// file that holds the link, to the moved file's new place, and keeps its
/// fragment.
pub proof fn law_retargeted_link_reaches_new_target(
    href: Seq<char>,
    src_dir: Seq<char>,
    new_target: Seq<char>,
)
    requires
        is_normal_absolute(src_dir),
        is_normal_absolute(new_target),
        writable_relative(src_dir, new_target),
    ensures
        resolved_href(retargeted_href(href, src_dir, new_target), src_dir) == Some(new_target),
        fragment(retargeted_href(href, src_dir, new_target)) == fragment(href),
{
    lemma_fragment_shape(href);
    lemma_href_for_resolves(src_dir, new_target, fragment(href));
}

/// A link inside a file that moved from `old_dir` to `new_dir` is rebased so
/// that, from the new directory, it leads where it led from the old one, and
/// it keeps its fragment.
pub proof fn law_rebased_link_keeps_target(
    href: Seq<char>,
    old_dir: Seq<char>,
    new_dir: Seq<char>,
    target: Seq<char>,
)
    requires
        resolved_href(path_part(href), old_dir) == Some(target),
        is_absolute(old_dir),
        is_normal_absolute(new_dir),
        writable_relative(new_dir, target),
    ensures
        resolved_href(rebased_href(href, old_dir, new_dir), new_dir) == Some(target),
        fragment(rebased_href(href, old_dir, new_dir)) == fragment(href),
{
    lemma_resolved_is_normal_absolute(path_part(href), old_dir);
    lemma_fragment_shape(href);
    lemma_href_for_resolves(new_dir, target, fragment(href));
}

} // verus!

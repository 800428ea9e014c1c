//! Unix paths held as strings: splitting into components, normalisation
//! without touching the filesystem, and relative paths between directories.
//!
//! A path is read the way `std::path::Path::components` reads it on Unix: a
//! leading `/` is the root, a leading `.` segment is the current directory,
//! empty and interior `.` segments vanish, `..` is the parent directory and
//! any other segment is a normal name.

use vstd::prelude::*;
use crate::text::{append_chars, chars_equal, copy_chars};

verus! {

/// A component of a path, as a mathematical value.
pub enum Comp {
    Root,
    Cur,
    Parent,
    Normal(Seq<char>),
}

/// A component of a path, as an executable value.
pub enum PathComponent {
    RootDir,
    CurDir,
    ParentDir,
    Normal(Vec<char>),
}

impl View for PathComponent {
    type V = Comp;

    open spec fn view(&self) -> Comp {
        match self {
            PathComponent::RootDir => Comp::Root,
            PathComponent::CurDir => Comp::Cur,
            PathComponent::ParentDir => Comp::Parent,
            PathComponent::Normal(n) => Comp::Normal(n@),
        }
    }
}

impl PathComponent {
    /// A copy of this component.
    pub fn copy(&self) -> (c: PathComponent)
        ensures
            c@ == self@,
    {
        match self {
            PathComponent::RootDir => PathComponent::RootDir,
            PathComponent::CurDir => PathComponent::CurDir,
            PathComponent::ParentDir => PathComponent::ParentDir,
            PathComponent::Normal(n) => PathComponent::Normal(copy_chars(n)),
        }
    }

    /// Whether two components are the same component.
    pub fn same(&self, other: &PathComponent) -> (eq: bool)
        ensures
            eq == (self@ == other@),
    {
        match (self, other) {
            (PathComponent::RootDir, PathComponent::RootDir) => true,
            (PathComponent::CurDir, PathComponent::CurDir) => true,
            (PathComponent::ParentDir, PathComponent::ParentDir) => true,
            (PathComponent::Normal(a), PathComponent::Normal(b)) => chars_equal(a, b),
            _ => false,
        }
    }
}

/// The mathematical components of a vector of executable ones.
pub open spec fn comps_view(v: Seq<PathComponent>) -> Seq<Comp> {
    v.map_values(|c: PathComponent| c@)
}

/// `"."`
pub open spec fn dot() -> Seq<char> {
    seq!['.']
}

/// `".."`
pub open spec fn dot_dot() -> Seq<char> {
    seq!['.', '.']
}

/// One step of splitting at `/`: a slash opens a new segment, any other
/// character extends the last one.
pub open spec fn split_step(segs: Seq<Seq<char>>, c: char) -> Seq<Seq<char>> {
    if c == '/' {
        segs.push(Seq::empty())
    } else {
        segs.update(segs.len() - 1, segs.last().push(c))
    }
}

/// The pieces of `s` between slashes, empty pieces included: there is always
/// one more piece than there are slashes.
pub open spec fn segments(s: Seq<char>) -> Seq<Seq<char>>
    decreases s.len(),
{
    if s.len() == 0 {
        seq![Seq::empty()]
    } else {
        split_step(segments(s.drop_last()), s.last())
    }
}

/// The component a single segment stands for: none for an empty segment or
/// for `.`, the parent for `..`, a normal name otherwise.
pub open spec fn segment_comps(g: Seq<char>) -> Seq<Comp> {
    if g.len() == 0 || g == dot() {
        seq![]
    } else if g == dot_dot() {
        seq![Comp::Parent]
    } else {
        seq![Comp::Normal(g)]
    }
}

/// The components that a run of segments stands for.
pub open spec fn segments_comps(gs: Seq<Seq<char>>) -> Seq<Comp>
    decreases gs.len(),
{
    if gs.len() == 0 {
        seq![]
    } else {
        segments_comps(gs.drop_last()) + segment_comps(gs.last())
    }
}

/// Whether the path starts at the root.
pub open spec fn is_absolute(s: Seq<char>) -> bool {
    s.len() > 0 && s[0] == '/'
}

/// The components of a path: the root or a leading current directory, then
/// one component per segment that is neither empty nor `.`.
pub open spec fn components(s: Seq<char>) -> Seq<Comp> {
    let lead = if is_absolute(s) {
        seq![Comp::Root]
    } else if segments(s)[0] == dot() {
        seq![Comp::Cur]
    } else {
        seq![]
    };
    lead + segments_comps(segments(s))
}

/// Whether a `..` coming next takes the last component away: only a name
/// is taken away, never the root or a `..` that was kept.
pub open spec fn can_pop(st: Seq<Comp>) -> bool {
    st.len() > 0 && st.last() is Normal
}

/// Whether a list of components has a parent: a last component that is not
/// the root.
pub open spec fn has_parent(cs: Seq<Comp>) -> bool {
    cs.len() > 0 && cs.last() != Comp::Root
}

/// One step of normalisation: `.` is dropped, `..` takes away the name
/// before it or, where there is no name before it, is kept; the root starts
/// afresh.
pub open spec fn norm_step(st: Seq<Comp>, c: Comp) -> Seq<Comp> {
    match c {
        Comp::Cur => st,
        Comp::Parent => if can_pop(st) {
            st.drop_last()
        } else {
            st.push(Comp::Parent)
        },
        Comp::Root => seq![Comp::Root],
        Comp::Normal(_) => st.push(c),
    }
}

/// Normalising the components `cs` on top of the components `st`.
pub open spec fn norm_from(st: Seq<Comp>, cs: Seq<Comp>) -> Seq<Comp>
    decreases cs.len(),
{
    if cs.len() == 0 {
        st
    } else {
        norm_step(norm_from(st, cs.drop_last()), cs.last())
    }
}

/// The normal form of a list of components.
pub open spec fn normalize_components(cs: Seq<Comp>) -> Seq<Comp> {
    norm_from(seq![], cs)
}

/// The text of a component.
pub open spec fn comp_name(c: Comp) -> Seq<char> {
    match c {
        Comp::Root => Seq::empty(),
        Comp::Cur => dot(),
        Comp::Parent => dot_dot(),
        Comp::Normal(n) => n,
    }
}

/// The texts of components joined by `/`.
pub open spec fn join_names(cs: Seq<Comp>) -> Seq<char>
    decreases cs.len(),
{
    if cs.len() == 0 {
        Seq::empty()
    } else if cs.len() == 1 {
        comp_name(cs[0])
    } else {
        join_names(cs.drop_last()) + seq!['/'] + comp_name(cs.last())
    }
}

/// The path that a list of components is written as: `/` for the root, then
/// the other components joined by `/`.
pub open spec fn render(cs: Seq<Comp>) -> Seq<char> {
    if cs.len() > 0 && cs[0] == Comp::Root {
        seq!['/'] + join_names(cs.skip(1))
    } else {
        join_names(cs)
    }
}

/// The normal form of a path: its components normalised, written out.
pub open spec fn normalized(s: Seq<char>) -> Seq<char> {
    render(normalize_components(components(s)))
}

/// The length of the longest common prefix of two component lists.
pub open spec fn common_prefix_len(a: Seq<Comp>, b: Seq<Comp>) -> nat
    decreases a.len(),
{
    if a.len() == 0 || b.len() == 0 || a[0] != b[0] {
        0
    } else {
        1 + common_prefix_len(a.drop_first(), b.drop_first())
    }
}

/// `n` parent components.
pub open spec fn parents(n: nat) -> Seq<Comp> {
    Seq::new(n, |i: int| Comp::Parent)
}

/// The components of the relative path from directory `from` to `to`: one
/// `..` for each component of `from` past the common prefix, then the rest
/// of `to`. A rest that starts at the root replaces everything before it.
pub open spec fn relative_components(from: Seq<Comp>, to: Seq<Comp>) -> Seq<Comp> {
    let common = common_prefix_len(from, to);
    let tail = to.skip(common as int);
    if tail.len() > 0 && tail[0] == Comp::Root {
        tail
    } else {
        parents((from.len() - common) as nat) + tail
    }
}

/// The relative path from directory `from` to `to`, `.` where it is empty.
pub open spec fn relative_path(from: Seq<char>, to: Seq<char>) -> Seq<char> {
    let r = render(relative_components(components(from), components(to)));
    if r.len() == 0 {
        dot()
    } else {
        r
    }
}

/// Joining `p` onto `dir` as `PathBuf::join` does: an absolute `p` replaces
/// `dir`, otherwise a `/` goes between them unless `dir` is empty or already
/// ends in one.
pub open spec fn join_path(dir: Seq<char>, p: Seq<char>) -> Seq<char> {
    if is_absolute(p) || dir.len() == 0 {
        p
    } else if dir.last() == '/' {
        dir + p
    } else {
        dir + seq!['/'] + p
    }
}

/// The directory that holds a path (`.` where the path has no parent, as
/// for the root or the empty path).
pub open spec fn parent_dir(s: Seq<char>) -> Seq<char> {
    let cs = components(s);
    if has_parent(cs) {
        render(cs.drop_last())
    } else {
        dot()
    }
}

pub proof fn lemma_segments_nonempty(s: Seq<char>)
    ensures
        segments(s).len() >= 1,
    decreases s.len(),
{
    if s.len() > 0 {
        lemma_segments_nonempty(s.drop_last());
    }
}

/// The components of `s`, one per component of the path.
pub fn path_components(s: &Vec<char>) -> (out: Vec<PathComponent>)
    ensures
        comps_view(out@) == components(s@),
{
    let n = s.len();
    let mut body: Vec<PathComponent> = Vec::new();
    let mut cur: Vec<char> = Vec::new();
    let mut first_done = false;
    let mut first_is_dot = false;
    assert(s@.take(0) =~= Seq::<char>::empty());
    for i in 0..n
        invariant
            n == s@.len(),
            segments(s@.take(i as int)).len() >= 1,
            cur@ == segments(s@.take(i as int)).last(),
            comps_view(body@) == segments_comps(segments(s@.take(i as int)).drop_last()),
            !first_done <==> segments(s@.take(i as int)).len() == 1,
            first_done ==> (first_is_dot == (segments(s@.take(i as int))[0] == dot())),
    {
        let ghost prev = s@.take(i as int);
        let ghost segs = segments(prev);
        assert(s@.take(i + 1).drop_last() =~= prev);
        let c = s[i];
        if c == '/' {
            if !first_done {
                first_is_dot = cur.len() == 1 && cur[0] == '.';
                assert(first_is_dot == (cur@ == dot())) by {
                    if cur@.len() == 1 && cur@[0] == '.' {
                        assert(cur@ =~= dot());
                    }
                }
                first_done = true;
            }
            let g = cur;
            cur = Vec::new();
            let ghost before = body@;
            if g.len() == 0 {
            } else if g.len() == 1 && g[0] == '.' {
                assert(g@ =~= dot());
            } else if g.len() == 2 && g[0] == '.' && g[1] == '.' {
                assert(g@ =~= dot_dot());
                body.push(PathComponent::ParentDir);
            } else {
                assert(g@ != dot());
                assert(g@ != dot_dot());
                body.push(PathComponent::Normal(g));
            }
            let ghost nsegs = segments(s@.take(i + 1));
            assert(nsegs == segs.push(Seq::empty()));
            assert(nsegs.drop_last() =~= segs);
            assert(segs =~= segs.drop_last().push(segs.last()));
            assert(comps_view(body@) =~= comps_view(before) + segment_comps(g@));
        } else {
            cur.push(c);
            let ghost nsegs = segments(s@.take(i + 1));
            assert(nsegs == segs.update(segs.len() - 1, segs.last().push(c)));
            assert(nsegs.drop_last() =~= segs.drop_last());
        }
    }
    assert(s@.take(n as int) =~= s@);
    let ghost segs = segments(s@);
    assert(segs =~= segs.drop_last().push(segs.last()));
    let ghost before = body@;
    let g = cur;
    if !first_done {
        first_is_dot = g.len() == 1 && g[0] == '.';
        proof {
            if g@.len() == 1 && g@[0] == '.' {
                assert(g@ =~= dot());
            }
        }
    }
    if g.len() == 0 {
    } else if g.len() == 1 && g[0] == '.' {
        assert(g@ =~= dot());
    } else if g.len() == 2 && g[0] == '.' && g[1] == '.' {
        assert(g@ =~= dot_dot());
        body.push(PathComponent::ParentDir);
    } else {
        assert(g@ != dot());
        assert(g@ != dot_dot());
        body.push(PathComponent::Normal(g));
    }
    assert(comps_view(body@) =~= comps_view(before) + segment_comps(g@));
    let ghost body_view = comps_view(body@);
    if n > 0 && s[0] == '/' {
        body.insert(0, PathComponent::RootDir);
        assert(comps_view(body@) =~= seq![Comp::Root] + body_view);
    } else if first_is_dot {
        body.insert(0, PathComponent::CurDir);
        assert(comps_view(body@) =~= seq![Comp::Cur] + body_view);
    } else {
        assert(comps_view(body@) =~= Seq::<Comp>::empty() + body_view);
    }
    body
}


impl PathComponent {
    /// Whether this is the root.
    pub fn is_root(&self) -> (b: bool)
        ensures
            b == (self@ == Comp::Root),
    {
        match self {
            PathComponent::RootDir => true,
            _ => false,
        }
    }

    /// Whether this is a name.
    pub fn is_name(&self) -> (b: bool)
        ensures
            b == (self@ is Normal),
    {
        match self {
            PathComponent::Normal(_) => true,
            _ => false,
        }
    }

    /// The text of this component.
    pub fn name(&self) -> (out: Vec<char>)
        ensures
            out@ == comp_name(self@),
    {
        let mut out: Vec<char> = Vec::new();
        match self {
            PathComponent::RootDir => {},
            PathComponent::CurDir => {
                out.push('.');
                assert(out@ =~= dot());
            },
            PathComponent::ParentDir => {
                out.push('.');
                out.push('.');
                assert(out@ =~= dot_dot());
            },
            PathComponent::Normal(n) => {
                out = copy_chars(n);
            },
        }
        out
    }
}

/// The normal form of a list of components.
pub fn normalize_comps(cs: &Vec<PathComponent>) -> (out: Vec<PathComponent>)
    ensures
        comps_view(out@) == normalize_components(comps_view(cs@)),
{
    let mut st: Vec<PathComponent> = Vec::new();
    let ghost all = comps_view(cs@);
    assert(all.take(0) =~= Seq::<Comp>::empty());
    assert(comps_view(st@) =~= Seq::<Comp>::empty());
    for i in 0..cs.len()
        invariant
            all == comps_view(cs@),
            comps_view(st@) == norm_from(seq![], all.take(i as int)),
    {
        assert(all.take(i + 1).drop_last() =~= all.take(i as int));
        assert(all.take(i + 1).last() == cs@[i as int]@);
        let ghost before = st@;
        match &cs[i] {
            PathComponent::CurDir => {},
            PathComponent::ParentDir => {
                if st.len() > 0 && st[st.len() - 1].is_name() {
                    st.pop();
                    assert(comps_view(st@) =~= comps_view(before).drop_last());
                } else {
                    st.push(PathComponent::ParentDir);
                    assert(comps_view(st@) =~= comps_view(before).push(Comp::Parent));
                }
            },
            PathComponent::RootDir => {
                st = Vec::new();
                st.push(PathComponent::RootDir);
                assert(comps_view(st@) =~= seq![Comp::Root]);
            },
            PathComponent::Normal(n) => {
                st.push(PathComponent::Normal(copy_chars(n)));
                assert(comps_view(st@) =~= comps_view(before).push(cs@[i as int]@));
            },
        }
    }
    assert(all.take(cs.len() as int) =~= all);
    st
}

/// The characters of the path that a list of components is written as.
pub fn render_components(cs: &Vec<PathComponent>) -> (out: Vec<char>)
    ensures
        out@ == render(comps_view(cs@)),
{
    let ghost all = comps_view(cs@);
    let n = cs.len();
    let mut out: Vec<char> = Vec::new();
    let mut start: usize = 0;
    if n > 0 && cs[0].is_root() {
        start = 1;
        out.push('/');
    }
    let ghost prefix = out@;
    assert(all.subrange(start as int, start as int) =~= Seq::<Comp>::empty());
    assert(out@ =~= prefix + join_names(all.subrange(start as int, start as int)));
    for k in start..n
        invariant
            all == comps_view(cs@),
            n == cs@.len(),
            start <= n,
            out@ == prefix + join_names(all.subrange(start as int, k as int)),
    {
        let ghost sub = all.subrange(start as int, k + 1);
        assert(sub.drop_last() =~= all.subrange(start as int, k as int));
        assert(sub.last() == cs@[k as int]@);
        if k > start {
            out.push('/');
        }
        let name = cs[k].name();
        append_chars(&mut out, &name);
        proof {
            if k == start {
                assert(sub.len() == 1);
                assert(sub[0] == cs@[k as int]@);
            }
        }
        assert(out@ =~= prefix + join_names(sub));
    }
    proof {
        if n > 0 && all[0] == Comp::Root {
            assert(all.skip(1) =~= all.subrange(1, n as int));
            assert(prefix =~= seq!['/']);
        } else {
            assert(all =~= all.subrange(0, n as int));
            assert(prefix =~= Seq::<char>::empty());
        }
    }
    out
}

pub proof fn lemma_common_prefix_len(a: Seq<Comp>, b: Seq<Comp>, i: int)
    requires
        0 <= i <= a.len(),
        i <= b.len(),
        forall|k: int| 0 <= k < i ==> a[k] == b[k],
        i == a.len() || i == b.len() || a[i] != b[i],
    ensures
        common_prefix_len(a, b) == i,
    decreases i,
{
    if i > 0 {
        assert(a[0] == b[0]);
        lemma_common_prefix_len(a.drop_first(), b.drop_first(), i - 1);
    }
}

/// The components of the relative path from directory `from` to `to`.
pub fn relative_comps(from: &Vec<PathComponent>, to: &Vec<PathComponent>) -> (out: Vec<PathComponent>)
    ensures
        comps_view(out@) == relative_components(comps_view(from@), comps_view(to@)),
{
    let ghost f = comps_view(from@);
    let ghost t = comps_view(to@);
    let mut common: usize = 0;
    while common < from.len() && common < to.len() && from[common].same(&to[common])
        invariant
            f == comps_view(from@),
            t == comps_view(to@),
            common <= from@.len(),
            common <= to@.len(),
            forall|k: int| 0 <= k < common ==> f[k] == t[k],
        decreases from@.len() - common,
    {
        common += 1;
    }
    proof {
        lemma_common_prefix_len(f, t, common as int);
    }
    let mut out: Vec<PathComponent> = Vec::new();
    let root_tail = common < to.len() && to[common].is_root();
    if !root_tail {
        let up = from.len() - common;
        assert(comps_view(out@) =~= parents(0));
        for k in 0..up
            invariant
                comps_view(out@) == parents(k as nat),
        {
            let ghost before = out@;
            out.push(PathComponent::ParentDir);
            assert(comps_view(out@) =~= comps_view(before).push(Comp::Parent));
            assert(comps_view(out@) =~= parents((k + 1) as nat));
        }
    }
    let ghost head = comps_view(out@);
    assert(t.subrange(common as int, common as int) =~= Seq::<Comp>::empty());
    assert(comps_view(out@) =~= head + t.subrange(common as int, common as int));
    for j in common..to.len()
        invariant
            t == comps_view(to@),
            common <= to@.len(),
            comps_view(out@) == head + t.subrange(common as int, j as int),
    {
        let ghost before = out@;
        out.push(to[j].copy());
        assert(t.subrange(common as int, j + 1) =~= t.subrange(common as int, j as int).push(t[j as int]));
        assert(comps_view(out@) =~= comps_view(before).push(t[j as int]));
    }
    assert(t.subrange(common as int, to@.len() as int) =~= t.skip(common as int));
    proof {
        if root_tail {
            assert(head =~= Seq::<Comp>::empty());
            assert(comps_view(out@) =~= t.skip(common as int));
        }
    }
    out
}

/// The components of the path written in `s`.
pub fn str_components(s: &str) -> (out: Vec<PathComponent>)
    ensures
        comps_view(out@) == components(s@),
{
    let chars = crate::text::to_chars(s);
    path_components(&chars)
}

/// Normalises a path by resolving `.` and `..` components without touching
/// the filesystem (unlike `canonicalize`): `.` vanishes, `..` removes the
/// name before it, and a `..` with no name before it to remove stays.
pub fn normalize_path(path: &str) -> (out: String)
    ensures
        out@ == normalized(path@),
{
    let cs = str_components(path);
    let norm = normalize_comps(&cs);
    let chars = render_components(&norm);
    crate::text::string_from_chars(&chars)
}

/// Computes a relative path from directory `from_dir` to `to_file`: a `..`
/// for each component of `from_dir` past the components the two share, then
/// the rest of `to_file`; `.` where that is empty. Both paths are meant to be
/// absolute and normalised.
pub fn make_relative(from_dir: &str, to_file: &str) -> (out: String)
    ensures
        out@ == relative_path(from_dir@, to_file@),
{
    let from = str_components(from_dir);
    let to = str_components(to_file);
    let rel = relative_comps(&from, &to);
    let mut chars = render_components(&rel);
    if chars.len() == 0 {
        chars.push('.');
        assert(chars@ =~= dot());
    }
    crate::text::string_from_chars(&chars)
}

/// The characters of `p` joined onto the directory `dir`, as `PathBuf::join`
/// joins them.
pub fn join_chars(dir: &Vec<char>, p: &Vec<char>) -> (out: Vec<char>)
    ensures
        out@ == join_path(dir@, p@),
{
    if (p.len() > 0 && p[0] == '/') || dir.len() == 0 {
        copy_chars(p)
    } else {
        let mut out = copy_chars(dir);
        if dir[dir.len() - 1] != '/' {
            out.push('/');
        }
        append_chars(&mut out, p);
        out
    }
}

/// The characters of the directory that holds the path `s` (`.` where it
/// has none).
pub fn parent_dir_chars(s: &Vec<char>) -> (out: Vec<char>)
    ensures
        out@ == parent_dir(s@),
{
    let mut cs = path_components(s);
    let n = cs.len();
    if n > 0 && !cs[n - 1].is_root() {
        let ghost all = comps_view(cs@);
        cs.pop();
        assert(comps_view(cs@) =~= all.drop_last());
        render_components(&cs)
    } else {
        let mut out: Vec<char> = Vec::new();
        out.push('.');
        assert(out@ =~= dot());
        out
    }
}

/// A name that is written as itself and read back as itself: not empty, not
/// `.` or `..`, and free of `/`.
pub open spec fn is_plain_name(n: Seq<char>) -> bool {
    n.len() > 0 && n != dot() && n != dot_dot() && !n.contains('/')
}

/// A component that a relative path may consist of: `..` or a plain name.
pub open spec fn is_relative_step(c: Comp) -> bool {
    match c {
        Comp::Parent => true,
        Comp::Normal(n) => is_plain_name(n),
        _ => false,
    }
}

proof fn lemma_split_step_concat(p: Seq<Seq<char>>, q: Seq<Seq<char>>, c: char)
    requires
        q.len() >= 1,
    ensures
        split_step(p + q, c) == p + split_step(q, c),
{
    if c == '/' {
        assert((p + q).push(Seq::empty()) =~= p + q.push(Seq::empty()));
    } else {
        assert((p + q).last() == q.last());
        assert((p + q).update((p + q).len() - 1, (p + q).last().push(c)) =~= p + q.update(
            q.len() - 1,
            q.last().push(c),
        ));
    }
}

/// Splitting at a slash splits the two sides apart.
pub proof fn lemma_segments_concat(a: Seq<char>, b: Seq<char>)
    ensures
        segments(a + seq!['/'] + b) == segments(a) + segments(b),
    decreases b.len(),
{
    let x = a + seq!['/'] + b;
    if b.len() == 0 {
        assert(x.drop_last() =~= a);
        assert(segments(a).push(Seq::empty()) =~= segments(a) + segments(b));
    } else {
        let b1 = b.drop_last();
        assert(x.drop_last() =~= a + seq!['/'] + b1);
        assert(x.last() == b.last());
        lemma_segments_concat(a, b1);
        lemma_segments_nonempty(b1);
        lemma_split_step_concat(segments(a), segments(b1), b.last());
    }
}

/// A text without slashes is a single segment.
pub proof fn lemma_segments_no_slash(s: Seq<char>)
    requires
        !s.contains('/'),
    ensures
        segments(s) == seq![s],
    decreases s.len(),
{
    if s.len() > 0 {
        let s1 = s.drop_last();
        assert(!s1.contains('/')) by {
            if s1.contains('/') {
                let k = choose|k: int| 0 <= k < s1.len() && s1[k] == '/';
                assert(s[k] == '/');
            }
        }
        lemma_segments_no_slash(s1);
        assert(s.last() != '/') by {
            assert(s[s.len() - 1] == s.last());
        }
        assert(s1.push(s.last()) =~= s);
        assert(seq![s1].update(0, s1.push(s.last())) =~= seq![s]);
    } else {
        assert(s =~= Seq::<char>::empty());
    }
}

/// The components of joined runs of segments are joined.
pub proof fn lemma_segments_comps_concat(x: Seq<Seq<char>>, y: Seq<Seq<char>>)
    ensures
        segments_comps(x + y) == segments_comps(x) + segments_comps(y),
    decreases y.len(),
{
    if y.len() == 0 {
        assert(x + y =~= x);
        assert(segments_comps(x) + segments_comps(y) =~= segments_comps(x));
    } else {
        let y1 = y.drop_last();
        assert((x + y).drop_last() =~= x + y1);
        assert((x + y).last() == y.last());
        lemma_segments_comps_concat(x, y1);
        assert(segments_comps(x + y1) + segment_comps(y.last()) =~= segments_comps(x) + (
        segments_comps(y1) + segment_comps(y.last())));
    }
}

/// Joining names in front of others.
pub proof fn lemma_join_names_front(c: Comp, rest: Seq<Comp>)
    ensures
        join_names(seq![c] + rest) == if rest.len() == 0 {
            comp_name(c)
        } else {
            comp_name(c) + seq!['/'] + join_names(rest)
        },
    decreases rest.len(),
{
    let all = seq![c] + rest;
    let one = seq![c];
    assert(one.len() == 1 && one[0] == c);
    assert(join_names(one) == comp_name(c));
    if rest.len() == 0 {
        assert(all =~= one);
    } else if rest.len() == 1 {
        assert(all.drop_last() =~= one);
        assert(all.last() == rest[0]);
        assert(join_names(all) == join_names(all.drop_last()) + seq!['/'] + comp_name(all.last()));
        assert(join_names(rest) == comp_name(rest[0]));
    } else {
        let r1 = rest.drop_last();
        assert(all.drop_last() =~= seq![c] + r1);
        assert(all.last() == rest.last());
        lemma_join_names_front(c, r1);
        assert(join_names(all) == join_names(all.drop_last()) + seq!['/'] + comp_name(all.last()));
        assert(join_names(rest) == join_names(r1) + seq!['/'] + comp_name(rest.last()));
        assert(comp_name(c) + seq!['/'] + join_names(r1) + seq!['/'] + comp_name(rest.last())
            =~= comp_name(c) + seq!['/'] + (join_names(r1) + seq!['/'] + comp_name(rest.last())));
    }
}

pub proof fn lemma_step_name(c: Comp)
    requires
        is_relative_step(c),
    ensures
        !comp_name(c).contains('/'),
        segment_comps(comp_name(c)) == seq![c],
{
    match c {
        Comp::Parent => {
            assert(dot_dot().len() == 2);
            assert(dot().len() == 1);
            assert(dot_dot() != dot());
            assert(!dot_dot().contains('/')) by {
                if dot_dot().contains('/') {
                    let k = choose|k: int| 0 <= k < dot_dot().len() && dot_dot()[k] == '/';
                }
            }
        },
        _ => {},
    }
}

/// Writing relative steps out and reading them back gives the same steps.
pub proof fn lemma_join_names_segments(cs: Seq<Comp>)
    requires
        forall|k: int| 0 <= k < cs.len() ==> is_relative_step(#[trigger] cs[k]),
    ensures
        segments_comps(segments(join_names(cs))) == cs,
    decreases cs.len(),
{
    if cs.len() == 0 {
        assert(segments_comps(seq![Seq::<char>::empty()].drop_last()) =~= Seq::<Comp>::empty());
        assert(segments_comps(seq![Seq::<char>::empty()]) =~= Seq::<Comp>::empty());
    } else {
        let c = cs.last();
        assert(is_relative_step(cs[cs.len() - 1]));
        lemma_step_name(c);
        lemma_segments_no_slash(comp_name(c));
        let one = seq![comp_name(c)];
        assert(one.drop_last() =~= Seq::<Seq<char>>::empty());
        assert(one.last() == comp_name(c));
        assert(segments_comps(one.drop_last()) =~= Seq::<Comp>::empty());
        assert(segments_comps(one) =~= seq![c]);
        if cs.len() == 1 {
            assert(cs =~= seq![c]);
        } else {
            let c1 = cs.drop_last();
            lemma_join_names_segments(c1);
            lemma_segments_concat(join_names(c1), comp_name(c));
            lemma_segments_comps_concat(segments(join_names(c1)), one);
            assert(c1.push(c) =~= cs);
        }
    }
}

/// Normalising a joined list goes on from where the first part left off.
pub proof fn lemma_norm_from_concat(st: Seq<Comp>, xs: Seq<Comp>, ys: Seq<Comp>)
    ensures
        norm_from(st, xs + ys) == norm_from(norm_from(st, xs), ys),
    decreases ys.len(),
{
    if ys.len() == 0 {
        assert(xs + ys =~= xs);
    } else {
        assert((xs + ys).drop_last() =~= xs + ys.drop_last());
        assert((xs + ys).last() == ys.last());
        lemma_norm_from_concat(st, xs, ys.drop_last());
    }
}

/// Each `..` takes away one name.
pub proof fn lemma_norm_from_parents(st: Seq<Comp>, u: nat)
    requires
        u <= st.len(),
        forall|k: int| st.len() - u <= k < st.len() ==> #[trigger] st[k] is Normal,
    ensures
        norm_from(st, parents(u)) == st.take(st.len() - u),
    decreases u,
{
    if u == 0 {
        assert(st.take(st.len() as int) =~= st);
    } else {
        assert(parents(u).drop_last() =~= parents((u - 1) as nat));
        lemma_norm_from_parents(st, (u - 1) as nat);
        let t = st.take(st.len() - u + 1);
        assert(t.last() == st[st.len() - u]);
        assert(t.drop_last() =~= st.take(st.len() - u));
    }
}

/// What the common prefix length measures.
pub proof fn lemma_common_prefix_len_props(a: Seq<Comp>, b: Seq<Comp>)
    ensures
        common_prefix_len(a, b) <= a.len(),
        common_prefix_len(a, b) <= b.len(),
        forall|k: int| 0 <= k < common_prefix_len(a, b) ==> a[k] == b[k],
    decreases a.len(),
{
    if !(a.len() == 0 || b.len() == 0 || a[0] != b[0]) {
        lemma_common_prefix_len_props(a.drop_first(), b.drop_first());
        assert forall|k: int| 0 <= k < common_prefix_len(a, b) implies a[k] == b[k] by {
            if k > 0 {
                assert(a.drop_first()[k - 1] == b.drop_first()[k - 1]);
            }
        }
    }
}

/// A character that no name holds, other than `/`, is missing from the
/// names joined by `/`.
pub proof fn lemma_join_names_lacks(cs: Seq<Comp>, x: char)
    requires
        x != '/',
        forall|k: int| 0 <= k < cs.len() ==> !comp_name(#[trigger] cs[k]).contains(x),
    ensures
        !join_names(cs).contains(x),
    decreases cs.len(),
{
    if cs.len() == 1 {
        assert(!comp_name(cs[0]).contains(x));
    } else if cs.len() >= 2 {
        let c1 = cs.drop_last();
        assert forall|k: int| 0 <= k < c1.len() implies !comp_name(#[trigger] c1[k]).contains(x) by {
            assert(c1[k] == cs[k]);
        }
        lemma_join_names_lacks(c1, x);
        let j = join_names(c1) + seq!['/'] + comp_name(cs.last());
        assert(!comp_name(cs[cs.len() - 1]).contains(x));
        assert(!j.contains(x)) by {
            if j.contains(x) {
                let k = choose|k: int| 0 <= k < j.len() && j[k] == x;
                if k < join_names(c1).len() {
                    assert(join_names(c1)[k] == x);
                } else if k > join_names(c1).len() {
                    assert(comp_name(cs.last())[k - join_names(c1).len() - 1] == x);
                }
            }
        }
    }
}

/// Components of an absolute path in normal form: the root, then `..`
/// steps, then plain names.
pub open spec fn is_rooted_normal(cs: Seq<Comp>) -> bool {
    cs.len() >= 1 && cs[0] == Comp::Root && is_normal_form(cs)
}

/// A path that starts at the root and is its own normal form.
pub open spec fn is_normal_absolute(p: Seq<char>) -> bool {
    is_absolute(p) && normalized(p) == p
}

/// Whether the components of `from` past the part it shares with `to`, which
/// a relative path from `from` to `to` climbs out of, are all names.
pub open spec fn climbs_over_names(from: Seq<Comp>, to: Seq<Comp>) -> bool {
    forall|k: int| common_prefix_len(from, to) <= k < from.len() ==> #[trigger] from[k] is Normal
}

/// The steps of the relative path between two absolute paths in normal form:
/// after the shared prefix (at least the root), `..` for each remaining
/// component of `from`, then the remaining components of `to`.
pub proof fn lemma_relative_components_shape(from: Seq<Comp>, to: Seq<Comp>)
    requires
        is_rooted_normal(from),
        is_rooted_normal(to),
    ensures
        ({
            let c = common_prefix_len(from, to);
            &&& 1 <= c <= from.len()
            &&& c <= to.len()
            &&& from.take(c as int) == to.take(c as int)
            &&& relative_components(from, to) == parents((from.len() - c) as nat) + to.skip(c as int)
            &&& forall|k: int|
                0 <= k < relative_components(from, to).len() ==> is_relative_step(
                    #[trigger] relative_components(from, to)[k],
                )
        }),
{
    lemma_common_prefix_len_props(from, to);
    let c = common_prefix_len(from, to);
    assert(from[0] == to[0]);
    assert(c >= 1);
    assert(from.take(c as int) =~= to.take(c as int));
    let tail = to.skip(c as int);
    let body = nf_body(to);
    if tail.len() > 0 {
        assert(tail[0] == to[c as int]);
        assert(to[c as int] == body[c - 1]);
        assert(is_relative_step(body[c - 1]));
    }
    let rc = relative_components(from, to);
    let ups = parents((from.len() - c) as nat);
    assert(rc == ups + tail);
    assert forall|k: int| 0 <= k < rc.len() implies is_relative_step(#[trigger] rc[k]) by {
        if k < ups.len() {
            assert(rc[k] == Comp::Parent);
        } else {
            assert(rc[k] == to[c + k - ups.len()]);
            assert(to[c + k - ups.len()] == body[c + k - ups.len() - 1]);
        }
    }
}

/// The components of a relative path joined onto an absolute directory are
/// those of the directory followed by those of the path's segments.
pub proof fn lemma_components_join(d: Seq<char>, p: Seq<char>)
    requires
        is_absolute(d),
        p.len() > 0,
        !is_absolute(p),
    ensures
        components(join_path(d, p)) == components(d) + segments_comps(segments(p)),
{
    let j = join_path(d, p);
    let e = Seq::<char>::empty();
    assert(segments(e) == seq![e]);
    assert(seq![e].drop_last() =~= Seq::<Seq<char>>::empty());
    assert(seq![e].last() == e);
    assert(segment_comps(e) =~= Seq::<Comp>::empty());
    assert(segments_comps(seq![e].drop_last()) =~= Seq::<Comp>::empty());
    assert(segments_comps(seq![e]) =~= Seq::<Comp>::empty());
    if d.last() == '/' {
        let d0 = d.drop_last();
        assert(d =~= d0 + seq!['/'] + e);
        lemma_segments_concat(d0, e);
        assert(j =~= d0 + seq!['/'] + p);
        lemma_segments_concat(d0, p);
        lemma_segments_comps_concat(segments(d0), segments(p));
        lemma_segments_comps_concat(segments(d0), segments(e));
        assert(segments_comps(segments(d0)) + segments_comps(segments(e)) =~= segments_comps(
            segments(d0),
        ));
        assert(j[0] == '/');
        assert(seq![Comp::Root] + (segments_comps(segments(d0)) + segments_comps(segments(p)))
            =~= seq![Comp::Root] + segments_comps(segments(d0)) + segments_comps(segments(p)));
    } else {
        assert(j =~= d + seq!['/'] + p);
        lemma_segments_concat(d, p);
        lemma_segments_comps_concat(segments(d), segments(p));
        assert(j[0] == '/');
        assert(seq![Comp::Root] + (segments_comps(segments(d)) + segments_comps(segments(p)))
            =~= seq![Comp::Root] + segments_comps(segments(d)) + segments_comps(segments(p)));
    }
}

/// A relative path whose steps are those from directory `d` to `t` leads,
/// joined onto `d` and normalised, to `t`, where those steps climb out of
/// names only.
pub proof fn lemma_relative_steps_resolve(d: Seq<char>, t: Seq<char>, p: Seq<char>)
    requires
        is_normal_absolute(d),
        is_normal_absolute(t),
        climbs_over_names(components(d), components(t)),
        p.len() > 0,
        !is_absolute(p),
        segments_comps(segments(p)) == relative_components(components(d), components(t)),
    ensures
        normalized(join_path(d, p)) == t,
{
    lemma_normal_absolute_components(d);
    lemma_normal_absolute_components(t);
    let cd = components(d);
    let ct = components(t);
    lemma_relative_components_shape(cd, ct);
    let c = common_prefix_len(cd, ct);
    let u = (cd.len() - c) as nat;
    let tail = ct.skip(c as int);
    let rc = relative_components(cd, ct);
    lemma_components_join(d, p);
    lemma_norm_from_concat(seq![], cd, rc);
    lemma_normal_form_fixed(cd);
    lemma_norm_from_concat(cd, parents(u), tail);
    lemma_norm_from_parents(cd, u);
    let body = nf_body(ct);
    assert(steps_in_normal_form(tail)) by {
        assert forall|k: int| 0 <= k < tail.len() implies is_relative_step(#[trigger] tail[k]) by {
            assert(tail[k] == body[c - 1 + k]);
        }
        assert forall|i: int, j: int|
            0 <= i < j < tail.len() && #[trigger] tail[i] is Normal implies #[trigger] tail[j] is Normal by {
            assert(tail[i] == body[c - 1 + i]);
            assert(tail[j] == body[c - 1 + j]);
        }
    }
    let head = cd.take(c as int);
    if tail.len() > 0 && tail[0] == Comp::Parent {
        assert(head.last() == ct[c - 1]);
        if c >= 2 {
            assert(ct[c - 1] == body[c - 2]);
            assert(tail[0] == body[c - 1]);
            if body[c - 2] is Normal {
                assert(body[c - 1] is Normal);
            }
        }
    }
    lemma_norm_from_normal_tail(head, tail);
    assert(head + tail =~= ct);
}

/// The relative path from one absolute path in normal form to another,
/// joined onto the first and normalised, is the second, where the path
/// climbs out of names only.
pub proof fn law_relative_path_leads_back(from: Seq<char>, to: Seq<char>)
    requires
        is_normal_absolute(from),
        is_normal_absolute(to),
        climbs_over_names(components(from), components(to)),
    ensures
        normalized(join_path(from, relative_path(from, to))) == to,
{
    lemma_normal_absolute_components(from);
    lemma_normal_absolute_components(to);
    let cd = components(from);
    let ct = components(to);
    lemma_relative_components_shape(cd, ct);
    let rc = relative_components(cd, ct);
    let rel = relative_path(from, to);
    if rc.len() == 0 {
        assert(rel == dot());
        assert(!dot().contains('/')) by {
            if dot().contains('/') {
                let k = choose|k: int| 0 <= k < dot().len() && dot()[k] == '/';
            }
        }
        lemma_segments_no_slash(dot());
        let one = seq![dot()];
        assert(one.drop_last() =~= Seq::<Seq<char>>::empty());
        assert(one.last() == dot());
        assert(segment_comps(dot()) =~= Seq::<Comp>::empty());
        assert(segments_comps(one.drop_last()) =~= Seq::<Comp>::empty());
        assert(segments_comps(one) =~= rc);
    } else {
        assert(is_relative_step(rc[0]));
        assert(render(rc) == join_names(rc));
        lemma_join_names_segments(rc);
        lemma_join_names_front(rc[0], rc.skip(1));
        assert(rc =~= seq![rc[0]] + rc.skip(1));
        lemma_step_name(rc[0]);
        let n0 = comp_name(rc[0]);
        assert(rel[0] == n0[0]);
        assert(n0[0] != '/') by {
            assert(!n0.contains('/'));
        }
    }
    lemma_relative_steps_resolve(from, to, rel);
}

/// What follows the root of a list of components (all of it where there is
/// no root).
pub open spec fn nf_body(st: Seq<Comp>) -> Seq<Comp> {
    if st.len() > 0 && st[0] == Comp::Root {
        st.skip(1)
    } else {
        st
    }
}

/// Relative steps in which no `..` comes after a name.
pub open spec fn steps_in_normal_form(body: Seq<Comp>) -> bool {
    &&& forall|k: int| 0 <= k < body.len() ==> is_relative_step(#[trigger] body[k])
    &&& forall|i: int, j: int|
        0 <= i < j < body.len() && #[trigger] body[i] is Normal ==> #[trigger] body[j] is Normal
}

/// Components in normal form: an optional root, then `..` steps, then plain
/// names.
pub open spec fn is_normal_form(st: Seq<Comp>) -> bool {
    steps_in_normal_form(nf_body(st))
}

/// A component that a path can hold: the root, `.`, `..` or a plain name.
pub open spec fn is_path_comp(c: Comp) -> bool {
    match c {
        Comp::Normal(n) => is_plain_name(n),
        _ => true,
    }
}

pub proof fn lemma_segments_no_slash_inside(s: Seq<char>)
    ensures
        forall|k: int| 0 <= k < segments(s).len() ==> !(#[trigger] segments(s)[k]).contains('/'),
    decreases s.len(),
{
    if s.len() > 0 {
        let p = segments(s.drop_last());
        lemma_segments_no_slash_inside(s.drop_last());
        lemma_segments_nonempty(s.drop_last());
        let c = s.last();
        let r = segments(s);
        assert forall|k: int| 0 <= k < r.len() implies !(#[trigger] r[k]).contains('/') by {
            if c == '/' {
                if k < p.len() {
                    assert(r[k] == p[k]);
                } else {
                    assert(r[k] =~= Seq::<char>::empty());
                }
            } else if k < p.len() - 1 {
                assert(r[k] == p[k]);
            } else {
                assert(r[k] == p[k].push(c));
                if r[k].contains('/') {
                    let j = choose|j: int| 0 <= j < r[k].len() && r[k][j] == '/';
                    assert(p[k][j] == '/');
                }
            }
        }
    } else {
        assert(segments(s)[0] =~= Seq::<char>::empty());
    }
}

pub proof fn lemma_segments_comps_steps(gs: Seq<Seq<char>>)
    requires
        forall|k: int| 0 <= k < gs.len() ==> !(#[trigger] gs[k]).contains('/'),
    ensures
        forall|k: int| 0 <= k < segments_comps(gs).len() ==> is_relative_step(#[trigger] segments_comps(gs)[k]),
    decreases gs.len(),
{
    if gs.len() > 0 {
        let g1 = gs.drop_last();
        assert forall|k: int| 0 <= k < g1.len() implies !(#[trigger] g1[k]).contains('/') by {
            assert(g1[k] == gs[k]);
        }
        lemma_segments_comps_steps(g1);
        let a = segments_comps(g1);
        let c = segment_comps(gs.last());
        assert(!gs[gs.len() - 1].contains('/'));
        assert forall|k: int| 0 <= k < (a + c).len() implies is_relative_step(#[trigger] (a + c)[k]) by {
            if k < a.len() {
                assert((a + c)[k] == a[k]);
            } else {
                assert((a + c)[k] == c[k - a.len()]);
            }
        }
    }
}

/// The components of any path are the root, `.`, `..` and plain names.
pub proof fn lemma_components_kinds(s: Seq<char>)
    ensures
        forall|k: int| 0 <= k < components(s).len() ==> is_path_comp(#[trigger] components(s)[k]),
{
    lemma_segments_no_slash_inside(s);
    lemma_segments_comps_steps(segments(s));
    let cs = components(s);
    let sc = segments_comps(segments(s));
    let lead = cs.take(cs.len() - sc.len());
    assert forall|k: int| 0 <= k < cs.len() implies is_path_comp(#[trigger] cs[k]) by {
        if k >= cs.len() - sc.len() {
            assert(cs[k] == sc[k - (cs.len() - sc.len())]);
        }
    }
}

/// Each step of normalisation keeps the normal form.
pub proof fn lemma_norm_step_normal_form(st: Seq<Comp>, c: Comp)
    requires
        is_normal_form(st),
        is_path_comp(c),
    ensures
        is_normal_form(norm_step(st, c)),
{
    let r = norm_step(st, c);
    let body = nf_body(st);
    match c {
        Comp::Cur => {
            assert(r == st);
        },
        Comp::Root => {
            assert(nf_body(r) =~= Seq::<Comp>::empty());
        },
        Comp::Normal(n) => {
            assert(nf_body(r) =~= body.push(c));
            assert(is_relative_step(c));
            let rb = nf_body(r);
            assert forall|k: int| 0 <= k < rb.len() implies is_relative_step(#[trigger] rb[k]) by {
                if k < body.len() {
                    assert(rb[k] == body[k]);
                }
            }
            assert forall|i: int, j: int|
                0 <= i < j < rb.len() && #[trigger] rb[i] is Normal implies #[trigger] rb[j] is Normal by {
                if j < body.len() {
                    assert(rb[i] == body[i]);
                    assert(rb[j] == body[j]);
                }
            }
        },
        Comp::Parent => {
            if can_pop(st) {
                if st[0] == Comp::Root {
                    assert(st.len() >= 2) by {
                        if st.len() == 1 {
                            assert(st.last() == st[0]);
                        }
                    }
                }
                assert(nf_body(r) =~= body.drop_last());
                let rb = nf_body(r);
                assert forall|k: int| 0 <= k < rb.len() implies is_relative_step(#[trigger] rb[k]) by {
                    assert(rb[k] == body[k]);
                }
                assert forall|i: int, j: int|
                    0 <= i < j < rb.len() && #[trigger] rb[i] is Normal implies #[trigger] rb[j] is Normal by {
                    assert(rb[i] == body[i]);
                    assert(rb[j] == body[j]);
                }
            } else {
                assert(nf_body(r) =~= body.push(Comp::Parent));
                if body.len() > 0 {
                    assert(body.last() == st.last());
                }
                let rb = nf_body(r);
                let m = body.len();
                assert forall|k: int| 0 <= k < rb.len() implies is_relative_step(#[trigger] rb[k]) by {
                    if k < m {
                        assert(rb[k] == body[k]);
                    }
                }
                assert forall|i: int, j: int|
                    0 <= i < j < rb.len() && #[trigger] rb[i] is Normal implies #[trigger] rb[j] is Normal by {
                    assert(rb[i] == body[i]);
                    if j < m {
                        assert(rb[j] == body[j]);
                    } else if i < m - 1 {
                        assert(body[m - 1] is Normal);
                    }
                }
            }
        },
    }
}

/// A root at the front stays there while components other than the root
/// are normalised on top of it.
pub proof fn lemma_norm_root_kept(st: Seq<Comp>, cs: Seq<Comp>)
    requires
        st.len() >= 1,
        st[0] == Comp::Root,
        forall|k: int| 0 <= k < cs.len() ==> #[trigger] cs[k] != Comp::Root,
    ensures
        norm_from(st, cs).len() >= 1,
        norm_from(st, cs)[0] == Comp::Root,
    decreases cs.len(),
{
    if cs.len() > 0 {
        let c1 = cs.drop_last();
        assert forall|k: int| 0 <= k < c1.len() implies #[trigger] c1[k] != Comp::Root by {
            assert(c1[k] == cs[k]);
        }
        lemma_norm_root_kept(st, c1);
        let m = norm_from(st, c1);
        assert(cs[cs.len() - 1] != Comp::Root);
        if can_pop(m) {
            assert(m.len() >= 2) by {
                if m.len() == 1 {
                    assert(m.last() == m[0]);
                }
            }
            assert(m.drop_last()[0] == m[0]);
        }
    }
}

/// Normalising steps in normal form on top of components pushes them as
/// they are, where a leading `..` finds no name to take away.
pub proof fn lemma_norm_from_normal_tail(st: Seq<Comp>, tail: Seq<Comp>)
    requires
        steps_in_normal_form(tail),
        tail.len() > 0 && tail[0] == Comp::Parent ==> !can_pop(st),
    ensures
        norm_from(st, tail) == st + tail,
    decreases tail.len(),
{
    if tail.len() == 0 {
        assert(st + tail =~= st);
    } else {
        let t1 = tail.drop_last();
        let x = tail.last();
        let m = tail.len();
        assert(steps_in_normal_form(t1)) by {
            assert forall|k: int| 0 <= k < t1.len() implies is_relative_step(#[trigger] t1[k]) by {
                assert(t1[k] == tail[k]);
            }
            assert forall|i: int, j: int|
                0 <= i < j < t1.len() && #[trigger] t1[i] is Normal implies #[trigger] t1[j] is Normal by {
                assert(t1[i] == tail[i]);
                assert(t1[j] == tail[j]);
            }
        }
        if t1.len() > 0 {
            assert(t1[0] == tail[0]);
        }
        lemma_norm_from_normal_tail(st, t1);
        assert(is_relative_step(tail[m - 1]));
        if x == Comp::Parent {
            if t1.len() > 0 {
                assert((st + t1).last() == tail[m - 2]);
                if tail[m - 2] is Normal {
                    assert(tail[m - 1] is Normal);
                }
            } else {
                assert(tail[0] == x);
                assert(st + t1 =~= st);
            }
        }
        assert((st + t1).push(x) =~= st + tail);
    }
}

pub proof fn lemma_norm_from_normal_form(st: Seq<Comp>, cs: Seq<Comp>)
    requires
        is_normal_form(st),
        forall|k: int| 0 <= k < cs.len() ==> is_path_comp(#[trigger] cs[k]),
    ensures
        is_normal_form(norm_from(st, cs)),
    decreases cs.len(),
{
    if cs.len() > 0 {
        let c1 = cs.drop_last();
        assert forall|k: int| 0 <= k < c1.len() implies is_path_comp(#[trigger] c1[k]) by {
            assert(c1[k] == cs[k]);
        }
        lemma_norm_from_normal_form(st, c1);
        assert(is_path_comp(cs[cs.len() - 1]));
        lemma_norm_step_normal_form(norm_from(st, c1), cs.last());
    }
}

/// Components in normal form, written out and read back, are themselves.
pub proof fn lemma_normal_form_roundtrip(st: Seq<Comp>)
    requires
        is_normal_form(st),
    ensures
        components(render(st)) == st,
{
    let e = Seq::<char>::empty();
    if st.len() > 0 && st[0] == Comp::Root {
        let rest = nf_body(st);
        assert(rest == st.skip(1));
        lemma_join_names_segments(rest);
        let j = join_names(rest);
        assert(render(st) =~= e + seq!['/'] + j);
        lemma_segments_concat(e, j);
        assert(segments(e) == seq![e]);
        lemma_segments_comps_concat(seq![e], segments(j));
        assert(seq![e].drop_last() =~= Seq::<Seq<char>>::empty());
        assert(seq![e].last() == e);
        assert(segment_comps(e) =~= Seq::<Comp>::empty());
        assert(segments_comps(seq![e].drop_last()) =~= Seq::<Comp>::empty());
        assert(segments_comps(seq![e]) =~= Seq::<Comp>::empty());
        assert(render(st)[0] == '/');
        assert(st =~= seq![Comp::Root] + rest);
        assert(segments_comps(seq![e]) + segments_comps(segments(j)) =~= rest);
    } else if st.len() == 0 {
        assert(render(st) =~= e);
        assert(segments(e) == seq![e]);
        assert(seq![e].drop_last() =~= Seq::<Seq<char>>::empty());
        assert(seq![e].last() == e);
        assert(segment_comps(e) =~= Seq::<Comp>::empty());
        assert(segments_comps(seq![e].drop_last()) =~= Seq::<Comp>::empty());
        assert(segments_comps(seq![e]) =~= Seq::<Comp>::empty());
        assert(components(e) =~= st);
    } else {
        assert(nf_body(st) == st);
        lemma_join_names_segments(st);
        let j = join_names(st);
        let first = st[0];
        let rest = st.skip(1);
        assert(st =~= seq![first] + rest);
        lemma_join_names_front(first, rest);
        assert(is_relative_step(first));
        lemma_step_name(first);
        let n0 = comp_name(first);
        assert(j[0] == n0[0]);
        assert(n0[0] != '/') by {
            assert(!n0.contains('/'));
        }
        lemma_segments_no_slash(n0);
        if rest.len() > 0 {
            lemma_segments_concat(n0, join_names(rest));
        }
        assert(segments(j)[0] == n0);
        assert(n0 != dot());
        assert(seq![] + segments_comps(segments(j)) =~= st);
    }
}

/// Normalising a path twice gives what normalising it once gives.
pub proof fn law_normalize_idempotent(p: Seq<char>)
    ensures
        normalized(normalized(p)) == normalized(p),
{
    let n = normalize_components(components(p));
    lemma_components_kinds(p);
    assert(is_normal_form(seq![])) by {}
    lemma_norm_from_normal_form(seq![], components(p));
    lemma_normal_form_roundtrip(n);
    lemma_normal_form_fixed(n);
}

/// Components in normal form are their own normal form.
pub proof fn lemma_normal_form_fixed(st: Seq<Comp>)
    requires
        is_normal_form(st),
    ensures
        normalize_components(st) == st,
{
    let rooted = st.len() > 0 && st[0] == Comp::Root;
    let body = nf_body(st);
    let head: Seq<Comp> = if rooted { seq![Comp::Root] } else { seq![] };
    assert(st =~= head + body);
    lemma_norm_from_concat(seq![], head, body);
    if rooted {
        assert(head.drop_last() =~= Seq::<Comp>::empty());
    }
    assert(norm_from(seq![], head) == head);
    lemma_norm_from_normal_tail(head, body);
}

/// The normal form of the components of an absolute path starts at the
/// root and is in normal form.
pub proof fn lemma_normalize_absolute(p: Seq<char>)
    requires
        is_absolute(p),
    ensures
        is_rooted_normal(normalize_components(components(p))),
{
    let cs = components(p);
    let sc = segments_comps(segments(p));
    assert(cs == seq![Comp::Root] + sc);
    lemma_segments_no_slash_inside(p);
    lemma_segments_comps_steps(segments(p));
    assert forall|k: int| 0 <= k < sc.len() implies #[trigger] sc[k] != Comp::Root by {
        assert(is_relative_step(sc[k]));
    }
    lemma_norm_from_concat(seq![], seq![Comp::Root], sc);
    assert(seq![Comp::Root].drop_last() =~= Seq::<Comp>::empty());
    assert(norm_from(seq![], seq![Comp::Root]) == seq![Comp::Root]);
    lemma_norm_root_kept(seq![Comp::Root], sc);
    lemma_components_kinds(p);
    assert(is_normal_form(seq![])) by {}
    lemma_norm_from_normal_form(seq![], cs);
}

/// An absolute path in normal form is written from its components, which
/// start at the root and are in normal form.
pub proof fn lemma_normal_absolute_components(p: Seq<char>)
    requires
        is_normal_absolute(p),
    ensures
        is_rooted_normal(components(p)),
        render(components(p)) == p,
{
    let n = normalize_components(components(p));
    lemma_normalize_absolute(p);
    lemma_normal_form_roundtrip(n);
}

/// The normal form of an absolute path is an absolute path in normal form.
pub proof fn lemma_normalized_is_normal_absolute(p: Seq<char>)
    requires
        is_absolute(p),
    ensures
        is_normal_absolute(normalized(p)),
{
    let n = normalize_components(components(p));
    lemma_normalize_absolute(p);
    assert(render(n) == seq!['/'] + join_names(n.skip(1)));
    assert(render(n)[0] == '/');
    law_normalize_idempotent(p);
}

/// Normalising steps on top of `st` leaves some prefix of `st` of length
/// `m` in place, and takes at least one step for each component above that
/// prefix that goes away or comes in.
pub proof fn lemma_norm_from_len_bound(st: Seq<Comp>, q: Seq<Comp>) -> (m: int)
    requires
        forall|k: int| 0 <= k < q.len() ==> #[trigger] q[k] != Comp::Root,
    ensures
        0 <= m <= st.len(),
        m <= norm_from(st, q).len(),
        st.take(m) == norm_from(st, q).take(m),
        q.len() >= (st.len() - m) + (norm_from(st, q).len() - m),
    decreases q.len(),
{
    if q.len() == 0 {
        st.len() as int
    } else {
        let q1 = q.drop_last();
        assert forall|k: int| 0 <= k < q1.len() implies #[trigger] q1[k] != Comp::Root by {
            assert(q1[k] == q[k]);
        }
        let m1 = lemma_norm_from_len_bound(st, q1);
        let r1 = norm_from(st, q1);
        let r = norm_from(st, q);
        let x = q.last();
        assert(q[q.len() - 1] != Comp::Root);
        if x == Comp::Parent && can_pop(r1) && m1 == r1.len() {
            assert(r == r1.drop_last());
            assert(st.take(m1 - 1) =~= st.take(m1).take(m1 - 1));
            assert(r.take(m1 - 1) =~= r1.take(m1).take(m1 - 1));
            m1 - 1
        } else {
            if x == Comp::Parent && can_pop(r1) {
                assert(r == r1.drop_last());
                assert(r.take(m1) =~= r1.take(m1));
            } else if x != Comp::Cur {
                assert(r == r1.push(x));
                assert(r.take(m1) =~= r1.take(m1));
            }
            m1
        }
    }
}

/// Lists that agree on their first `m` components share a prefix at least
/// that long.
pub proof fn lemma_common_prefix_at_least(a: Seq<Comp>, b: Seq<Comp>, m: int)
    requires
        0 <= m <= a.len(),
        m <= b.len(),
        a.take(m) == b.take(m),
    ensures
        common_prefix_len(a, b) >= m,
    decreases m,
{
    if m > 0 {
        assert(a[0] == a.take(m)[0]);
        assert(b[0] == b.take(m)[0]);
        assert(a.drop_first().take(m - 1) =~= b.drop_first().take(m - 1)) by {
            assert forall|k: int| 0 <= k < m - 1 implies #[trigger] a.drop_first().take(m - 1)[k]
                == b.drop_first().take(m - 1)[k] by {
                assert(a.drop_first().take(m - 1)[k] == a[k + 1]);
                assert(b.drop_first().take(m - 1)[k] == b[k + 1]);
                assert(a.take(m)[k + 1] == a[k + 1]);
                assert(b.take(m)[k + 1] == b[k + 1]);
                assert(a.take(m)[k + 1] == b.take(m)[k + 1]);
            }
        }
        lemma_common_prefix_at_least(a.drop_first(), b.drop_first(), m - 1);
    }
}

/// No relative path with fewer components than the one `relative_path`
/// gives leads, joined onto `from` and normalised, to `to`: the relative
/// path between two absolute paths in normal form is a shortest one.
pub proof fn law_relative_path_shortest(from: Seq<char>, to: Seq<char>, p: Seq<char>)
    requires
        is_normal_absolute(from),
        is_normal_absolute(to),
        p.len() > 0,
        !is_absolute(p),
        normalized(join_path(from, p)) == to,
    ensures
        segments_comps(segments(p)).len() >= relative_components(components(from), components(to)).len(),
{
    lemma_normal_absolute_components(from);
    lemma_normal_absolute_components(to);
    let cf = components(from);
    let ct = components(to);
    let q = segments_comps(segments(p));
    lemma_components_join(from, p);
    lemma_segments_no_slash_inside(p);
    lemma_segments_comps_steps(segments(p));
    assert forall|k: int| 0 <= k < q.len() implies #[trigger] q[k] != Comp::Root by {
        assert(is_relative_step(q[k]));
    }
    assert forall|k: int| 0 <= k < q.len() implies is_path_comp(#[trigger] q[k]) by {
        assert(is_relative_step(q[k]));
    }
    lemma_norm_from_concat(seq![], cf, q);
    lemma_normal_form_fixed(cf);
    let r = norm_from(cf, q);
    lemma_norm_from_normal_form(cf, q);
    lemma_normal_form_roundtrip(r);
    assert(ct == r);
    let m = lemma_norm_from_len_bound(cf, q);
    lemma_common_prefix_at_least(cf, ct, m);
    lemma_relative_components_shape(cf, ct);
}

} // verus!

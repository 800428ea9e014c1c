//! Finding the links of a markdown document: inline links and images,
//! whose spans come from pulldown-cmark, and reference definitions, found
//! line by line. Every link records the byte range of its href.

use vstd::prelude::*;
use pulldown_cmark::{Event, Options, Parser, Tag};
use crate::text::to_chars;

verus! {

/// `!`
pub const BANG: u8 = 0x21;
/// `[`
pub const OPEN_BRACKET: u8 = 0x5b;
/// `]`
pub const CLOSE_BRACKET: u8 = 0x5d;
/// `(`
pub const OPEN_PAREN: u8 = 0x28;
/// `:`
pub const COLON: u8 = 0x3a;
/// A line feed.
pub const NEWLINE: u8 = 0x0a;

/// The first position at or after `i` where `s` holds `c`.
pub open spec fn index_of_from(s: Seq<char>, c: char, i: int) -> Option<int>
    decreases s.len() - i,
{
    if i < 0 || i >= s.len() {
        None
    } else if s[i] == c {
        Some(i)
    } else {
        index_of_from(s, c, i + 1)
    }
}

pub proof fn lemma_index_of_from(s: Seq<char>, c: char, i: int)
    ensures
        index_of_from(s, c, i) matches Some(j) ==> {
            &&& 0 <= i <= j < s.len()
            &&& s[j] == c
            &&& forall|k: int| i <= k < j ==> s[k] != c
        },
        index_of_from(s, c, i) is None ==> forall|k: int| 0 <= i <= k < s.len() ==> s[k] != c,
    decreases s.len() - i,
{
    if 0 <= i < s.len() && s[i] != c {
        lemma_index_of_from(s, c, i + 1);
    }
}

/// The first position where `s` holds `c`.
pub open spec fn index_of(s: Seq<char>, c: char) -> Option<int> {
    index_of_from(s, c, 0)
}

/// The part of an href before its fragment.
pub open spec fn path_part(href: Seq<char>) -> Seq<char> {
    match index_of(href, '#') {
        Some(i) => href.take(i),
        None => href,
    }
}

/// The fragment of an href, from its first `#` on.
pub open spec fn fragment(href: Seq<char>) -> Option<Seq<char>> {
    match index_of(href, '#') {
        Some(i) => Some(href.skip(i)),
        None => None,
    }
}

/// A character that may stand in a URL scheme: an ASCII letter or digit,
/// `+`, `-` or `.`.
pub open spec fn is_scheme_char(c: char) -> bool {
    ('a' <= c && c <= 'z') || ('A' <= c && c <= 'Z') || ('0' <= c && c <= '9') || c == '+' || c
        == '-' || c == '.'
}

/// An ASCII letter.
pub open spec fn is_ascii_letter(c: char) -> bool {
    ('a' <= c && c <= 'z') || ('A' <= c && c <= 'Z')
}

/// Whether an href is an absolute URL: it has a `:`, and what comes before
/// the first `:` is a scheme as RFC 3986 writes it, an ASCII letter followed
/// by scheme characters.
pub open spec fn spec_is_external(href: Seq<char>) -> bool {
    match index_of(href, ':') {
        Some(i) => {
            &&& i >= 1
            &&& is_ascii_letter(href[0])
            &&& forall|k: int| 0 <= k < i ==> is_scheme_char(#[trigger] href[k])
        },
        None => false,
    }
}

/// The first position at or after `from` where `s` holds `c`.
pub fn find_char(s: &Vec<char>, c: char, from: usize) -> (res: Option<usize>)
    ensures
        match res {
            Some(i) => {
                &&& index_of_from(s@, c, from as int) == Some(i as int)
                &&& from <= i < s@.len()
                &&& s@[i as int] == c
            },
            None => index_of_from(s@, c, from as int) is None,
        },
{
    proof {
        lemma_index_of_from(s@, c, from as int);
    }
    let mut i = from;
    while i < s.len()
        invariant
            from <= i,
            index_of_from(s@, c, from as int) == index_of_from(s@, c, i as int),
        decreases s@.len() - i,
    {
        if s[i] == c {
            return Some(i);
        }
        i += 1;
    }
    None
}

/// Whether the characters of an href make it an absolute URL.
pub fn is_external_chars(href: &Vec<char>) -> (b: bool)
    ensures
        b == spec_is_external(href@),
{
    match find_char(href, ':', 0) {
        None => false,
        Some(colon) => {
            if colon == 0 {
                return false;
            }
            let c0 = href[0];
            if !(('a' <= c0 && c0 <= 'z') || ('A' <= c0 && c0 <= 'Z')) {
                return false;
            }
            for k in 0..colon
                invariant
                    colon <= href@.len(),
                    index_of(href@, ':') == Some(colon as int),
                    forall|j: int| 0 <= j < k ==> is_scheme_char(#[trigger] href@[j]),
            {
                let c = href[k];
                if !(('a' <= c && c <= 'z') || ('A' <= c && c <= 'Z') || ('0' <= c && c <= '9')
                    || c == '+' || c == '-' || c == '.') {
                    assert(!is_scheme_char(href@[k as int]));
                    return false;
                }
            }
            true
        },
    }
}

/// Returns `true` if `href` is an absolute URL (http, https, ftp, mailto, …):
/// it holds a `:`, and what comes before the first one is an RFC 3986
/// scheme, an ASCII letter followed by ASCII letters and digits, `+`, `-`
/// and `.`.
pub fn is_external(href: &str) -> (b: bool)
    ensures
        b == spec_is_external(href@),
{
    let chars = to_chars(href);
    is_external_chars(&chars)
}

/// Split `path#fragment` into `(path, Some("#fragment"))` or `(path, None)`,
/// at the first `#`.
pub fn split_fragment(href: &str) -> (parts: (&str, Option<&str>))
    ensures
        parts.0@ == path_part(href@),
        match parts.1 {
            Some(f) => fragment(href@) == Some(f@),
            None => fragment(href@) is None,
        },
{
    let chars = to_chars(href);
    match find_char(&chars, '#', 0) {
        Some(hash) => (href.substring_char(0, hash), Some(href.substring_char(hash, chars.len()))),
        None => (href, None),
    }
}

/// Where the walk over a link's label, started at `i` with `depth` brackets
/// open, stops: past the `]` that closes the label, or at the end.
pub open spec fn label_walk(s: Seq<u8>, i: int, depth: int) -> int
    decreases s.len() - i,
{
    if i < 0 || i >= s.len() || depth <= 0 {
        i
    } else {
        label_walk(
            s,
            i + 1,
            if s[i] == OPEN_BRACKET {
                depth + 1
            } else if s[i] == CLOSE_BRACKET {
                depth - 1
            } else {
                depth
            },
        )
    }
}

/// The position of the `(` that opens the href of an inline link written in
/// `s` (`[label](…)` or `![alt](…)`), where the closing `]` of the label is
/// directly followed by one.
pub open spec fn link_paren(s: Seq<u8>) -> Option<int> {
    let i0: int = if s.len() > 0 && s[0] == BANG {
        1
    } else {
        0
    };
    if !(i0 < s.len() && s[i0] == OPEN_BRACKET) {
        None
    } else {
        let i = label_walk(s, i0 + 1, 1);
        if i < s.len() && s[i] == OPEN_PAREN {
            Some(i)
        } else {
            None
        }
    }
}

/// The first position at or after `i` where `needle` occurs in `hay`.
pub open spec fn find_bytes_from(hay: Seq<u8>, needle: Seq<u8>, i: int) -> Option<int>
    decreases hay.len() + 1 - i,
{
    if i < 0 || i + needle.len() > hay.len() {
        None
    } else if hay.subrange(i, i + needle.len()) == needle {
        Some(i)
    } else {
        find_bytes_from(hay, needle, i + 1)
    }
}

/// Where the href `href` sits in the inline link written in `raw`, which
/// starts at `slice_start` in the document: the first occurrence of the href
/// after the `(` that follows the label, never inside the label itself.
pub open spec fn located_href(raw: Seq<u8>, href: Seq<u8>, slice_start: int) -> Option<(int, int)> {
    match link_paren(raw) {
        None => None,
        Some(p) => match find_bytes_from(raw, href, p + 1) {
            None => None,
            Some(q) => Some((slice_start + q, slice_start + q + href.len())),
        },
    }
}

pub proof fn lemma_label_walk(s: Seq<u8>, i: int, depth: int)
    requires
        0 <= i,
    ensures
        i <= label_walk(s, i, depth),
        i <= s.len() ==> label_walk(s, i, depth) <= s.len(),
    decreases s.len() - i,
{
    if !(i < 0 || i >= s.len() || depth <= 0) {
        lemma_label_walk(
            s,
            i + 1,
            if s[i] == OPEN_BRACKET {
                depth + 1
            } else if s[i] == CLOSE_BRACKET {
                depth - 1
            } else {
                depth
            },
        );
    }
}

/// How a byte changes the count of open brackets: `[` opens one, `]`
/// closes one.
pub open spec fn bracket_step(c: u8) -> int {
    if c == OPEN_BRACKET {
        1
    } else if c == CLOSE_BRACKET {
        -1
    } else {
        0
    }
}

/// The number of `[` less the number of `]` in `s[a..b]`.
pub open spec fn bracket_balance(s: Seq<u8>, a: int, b: int) -> int
    decreases b - a,
{
    if b <= a {
        0
    } else {
        bracket_balance(s, a, b - 1) + bracket_step(s[b - 1])
    }
}

/// Where the `[` that opens the label of a link written in `s` stands:
/// after a leading `!` for an image, first otherwise.
pub open spec fn label_start(s: Seq<u8>) -> int {
    if s.len() > 0 && s[0] == BANG {
        1
    } else {
        0
    }
}

/// Whether the `[` at `j` is closed by the `]` just before `i`: the
/// brackets of `s[j..i]` balance, and those of no shorter stretch from `j`
/// do.
pub open spec fn closes_label_at(s: Seq<u8>, j: int, i: int) -> bool {
    &&& 0 <= j < i <= s.len()
    &&& s[j] == OPEN_BRACKET
    &&& bracket_balance(s, j, i) == 0
    &&& forall|m: int| j < m < i ==> #[trigger] bracket_balance(s, j, m) > 0
}

/// The walk over a label, from `m` on with the count of open brackets since
/// the `[` at `j`, stops at the first place after `j` where the count is
/// back to nothing, or at the end.
pub proof fn lemma_label_walk_balance(s: Seq<u8>, j: int, m: int)
    requires
        0 <= j < m <= s.len(),
        s[j] == OPEN_BRACKET,
        forall|k: int| j < k < m ==> #[trigger] bracket_balance(s, j, k) > 0,
    ensures
        ({
            let w = label_walk(s, m, bracket_balance(s, j, m));
            &&& m <= w <= s.len()
            &&& forall|k: int| j < k < w ==> #[trigger] bracket_balance(s, j, k) > 0
            &&& bracket_balance(s, j, w) >= 0
            &&& (w < s.len() ==> bracket_balance(s, j, w) == 0)
        }),
    decreases s.len() - m,
{
    assert(bracket_balance(s, j, m) >= 0) by {
        if m - 1 > j {
            assert(bracket_balance(s, j, m - 1) > 0);
        } else {
            assert(bracket_balance(s, j, j) == 0);
        }
    }
    if m < s.len() && bracket_balance(s, j, m) > 0 {
        assert(bracket_balance(s, j, m + 1) == bracket_balance(s, j, m) + bracket_step(s[m]));
        lemma_label_walk_balance(s, j, m + 1);
    }
}

/// `link_paren` finds the `(` that directly follows the `]` closing the
/// label's `[`, the first `]` at which the brackets since that `[` balance,
/// and nothing else.
pub proof fn law_link_paren_least_closing(s: Seq<u8>, i: int)
    ensures
        link_paren(s) == Some(i) <==> (i < s.len() && s[i] == OPEN_PAREN && closes_label_at(
            s,
            label_start(s),
            i,
        )),
{
    let j = label_start(s);
    if j < s.len() && s[j] == OPEN_BRACKET {
        assert(bracket_balance(s, j, j) == 0);
        assert(bracket_balance(s, j, j + 1) == 1);
        lemma_label_walk_balance(s, j, j + 1);
        let w = label_walk(s, j + 1, 1);
        if i < s.len() && s[i] == OPEN_PAREN && closes_label_at(s, j, i) {
            if w < i {
                assert(bracket_balance(s, j, w) > 0);
            } else if w > i {
                assert(bracket_balance(s, j, i) > 0);
            }
            assert(w == i);
        }
    }
}

/// The range that `located_href` gives lies after the `(` of the link and
/// holds exactly the href.
pub proof fn law_located_href_holds_href(raw: Seq<u8>, href: Seq<u8>, slice_start: int)
    ensures
        located_href(raw, href, slice_start) matches Some((a, b)) ==> {
            &&& link_paren(raw) is Some
            &&& link_paren(raw)->0 < a - slice_start
            &&& b - a == href.len()
            &&& b - slice_start <= raw.len()
            &&& raw.subrange(a - slice_start, b - slice_start) == href
        },
{
    match link_paren(raw) {
        Some(p) => {
            lemma_find_bytes_from(raw, href, p + 1);
        },
        None => {},
    }
}

/// Find the position of `(` that opens the href in an inline link.
/// Returns the index within `raw_slice` of that `(`.
/// Returns `None` for reference-style links (`[text][ref]`) which have no `](`.
pub fn find_link_paren(raw_slice: &[u8]) -> (res: Option<usize>)
    ensures
        match res {
            Some(i) => link_paren(raw_slice@) == Some(i as int),
            None => link_paren(raw_slice@) is None,
        },
{
    let bytes = raw_slice;
    let mut depth: usize = 1;
    let mut i: usize = 0;
    if bytes.len() > 0 && bytes[0] == BANG {
        i += 1;
    }
    if i < bytes.len() && bytes[i] == OPEN_BRACKET {
        i += 1;
    } else {
        return None;
    }
    let start = i;
    while i < bytes.len() && depth > 0
        invariant
            1 <= start <= i <= bytes@.len(),
            depth <= i - start + 1,
            label_walk(bytes@, start as int, 1) == label_walk(bytes@, i as int, depth as int),
        decreases bytes@.len() - i,
    {
        if bytes[i] == OPEN_BRACKET {
            depth += 1;
        } else if bytes[i] == CLOSE_BRACKET {
            depth -= 1;
        }
        i += 1;
    }
    if i < bytes.len() && bytes[i] == OPEN_PAREN {
        Some(i)
    } else {
        None
    }
}

/// The first position at or after `from` where `needle` occurs in `hay`.
pub fn find_bytes(hay: &[u8], needle: &[u8], from: usize) -> (res: Option<usize>)
    ensures
        match res {
            Some(q) => find_bytes_from(hay@, needle@, from as int) == Some(q as int) && from <= q
                && q + needle@.len() <= hay@.len(),
            None => find_bytes_from(hay@, needle@, from as int) is None,
        },
{
    let n = needle.len();
    let mut i = from;
    while i <= hay.len() && n <= hay.len() - i
        invariant
            from <= i,
            n == needle@.len(),
            find_bytes_from(hay@, needle@, from as int) == find_bytes_from(hay@, needle@, i as int),
        decreases hay@.len() + 1 - i,
    {
        let mut k: usize = 0;
        while k < n && hay[i + k] == needle[k]
            invariant
                i + n <= hay@.len(),
                hay@.len() <= usize::MAX,
                n == needle@.len(),
                k <= n,
                forall|j: int| 0 <= j < k ==> hay@[i + j] == needle@[j],
            decreases n - k,
        {
            k += 1;
        }
        if k == n {
            assert(hay@.subrange(i as int, i + n) =~= needle@);
            return Some(i);
        }
        assert(hay@.subrange(i as int, i + n)[k as int] != needle@[k as int]);
        i += 1;
    }
    None
}

/// Locate the byte range of `href` inside `raw_slice` (which starts at
/// `slice_start` in the full document).  Returns `(abs_start, abs_end)`.
///
/// The `](` boundary is found first. Everything before it is link text,
/// which is never searched: an href that also appears verbatim as the link
/// label (e.g. `[guide.md](guide.md)`) is found in the parentheses.
pub fn locate_href_in_slice(raw_slice: &[u8], href: &[u8], slice_start: usize) -> (res: Option<
    (usize, usize),
>)
    requires
        slice_start + raw_slice@.len() <= usize::MAX,
    ensures
        match res {
            Some((s, e)) => located_href(raw_slice@, href@, slice_start as int) == Some(
                (s as int, e as int),
            ),
            None => located_href(raw_slice@, href@, slice_start as int) is None,
        },
{
    match find_link_paren(raw_slice) {
        None => None,
        Some(paren) => {
            proof {
                lemma_label_walk(raw_slice@, 1, 1);
                lemma_label_walk(raw_slice@, 2, 1);
            }
            match find_bytes(raw_slice, href, paren + 1) {
                None => None,
                Some(pos) => Some((slice_start + pos, slice_start + pos + href.len())),
            }
        },
    }
}

/// The width of the whitespace character (as `char::is_whitespace` has it)
/// encoded at `i`, before `e`, or 0 where none is: the ASCII ones
/// (tab, line feed, vertical tab, form feed, carriage return, space), U+0085,
/// U+00A0, U+1680, U+2000 to U+200A, U+2028, U+2029, U+202F, U+205F and
/// U+3000.
pub open spec fn ws_width(b: Seq<u8>, i: int, e: int) -> int {
    if 0 <= i < e && (b[i] == 0x20 || (0x09 <= b[i] && b[i] <= 0x0d)) {
        1
    } else if 0 <= i && i + 1 < e && b[i] == 0xc2 && (b[i + 1] == 0x85 || b[i + 1] == 0xa0) {
        2
    } else if 0 <= i && i + 2 < e && ((b[i] == 0xe1 && b[i + 1] == 0x9a && b[i + 2] == 0x80) || (
    b[i] == 0xe2 && b[i + 1] == 0x80 && ((0x80 <= b[i + 2] && b[i + 2] <= 0x8a) || b[i + 2]
        == 0xa8 || b[i + 2] == 0xa9 || b[i + 2] == 0xaf)) || (b[i] == 0xe2 && b[i + 1] == 0x81
        && b[i + 2] == 0x9f) || (b[i] == 0xe3 && b[i + 1] == 0x80 && b[i + 2] == 0x80)) {
        3
    } else {
        0
    }
}

/// Where the text from `i` to `e` starts once leading whitespace is trimmed.
pub open spec fn skip_ws(b: Seq<u8>, i: int, e: int) -> int
    decreases e - i,
{
    if ws_width(b, i, e) > 0 {
        skip_ws(b, i + ws_width(b, i, e), e)
    } else {
        i
    }
}

/// The first `]:` at or after `j` that ends before `e`.
pub open spec fn find_label_close(b: Seq<u8>, j: int, e: int) -> Option<int>
    decreases e - j,
{
    if j < 0 || j + 1 >= e {
        None
    } else if b[j] == CLOSE_BRACKET && b[j + 1] == COLON {
        Some(j)
    } else {
        find_label_close(b, j + 1, e)
    }
}

/// An ASCII whitespace byte, as `char::is_ascii_whitespace` has it: space,
/// tab, line feed, form feed, carriage return.
pub open spec fn is_ascii_ws(c: u8) -> bool {
    c == 0x20 || c == 0x09 || c == 0x0a || c == 0x0c || c == 0x0d
}

/// Where the token that starts at `k` ends: at the first ASCII whitespace
/// byte before `e`, or at `e`.
pub open spec fn token_end(b: Seq<u8>, k: int, e: int) -> int
    decreases e - k,
{
    if k < 0 || k >= e {
        e
    } else if is_ascii_ws(b[k]) {
        k
    } else {
        token_end(b, k + 1, e)
    }
}

pub proof fn lemma_skip_ws(b: Seq<u8>, i: int, e: int)
    requires
        0 <= i <= e,
    ensures
        i <= skip_ws(b, i, e) <= e,
    decreases e - i,
{
    if ws_width(b, i, e) > 0 {
        lemma_skip_ws(b, i + ws_width(b, i, e), e);
    }
}

pub proof fn lemma_token_end(b: Seq<u8>, k: int, e: int)
    requires
        0 <= k <= e,
    ensures
        k <= token_end(b, k, e) <= e,
    decreases e - k,
{
    if k < e && !is_ascii_ws(b[k]) {
        lemma_token_end(b, k + 1, e);
    }
}

pub proof fn lemma_find_label_close(b: Seq<u8>, j: int, e: int)
    requires
        0 <= j,
    ensures
        find_label_close(b, j, e) matches Some(c) ==> j <= c && c + 1 < e,
    decreases e - j,
{
    if !(j + 1 >= e) && !(b[j] == CLOSE_BRACKET && b[j + 1] == COLON) {
        lemma_find_label_close(b, j + 1, e);
    }
}

/// The width of the whitespace character encoded at `i`, before `e`.
pub fn ws_width_at(b: &[u8], i: usize, e: usize) -> (w: usize)
    requires
        e <= b@.len(),
    ensures
        w == ws_width(b@, i as int, e as int),
{
    if i < e && (b[i] == 0x20 || (0x09 <= b[i] && b[i] <= 0x0d)) {
        1
    } else if i < e && e - i > 1 && b[i] == 0xc2 && (b[i + 1] == 0x85 || b[i + 1] == 0xa0) {
        2
    } else if i < e && e - i > 2 && ((b[i] == 0xe1 && b[i + 1] == 0x9a && b[i + 2] == 0x80) || (
    b[i] == 0xe2 && b[i + 1] == 0x80 && ((0x80 <= b[i + 2] && b[i + 2] <= 0x8a) || b[i + 2]
        == 0xa8 || b[i + 2] == 0xa9 || b[i + 2] == 0xaf)) || (b[i] == 0xe2 && b[i + 1] == 0x81
        && b[i + 2] == 0x9f) || (b[i] == 0xe3 && b[i + 1] == 0x80 && b[i + 2] == 0x80)) {
        3
    } else {
        0
    }
}

/// Where the text from `i` to `e` starts once leading whitespace is trimmed.
pub fn skip_whitespace(b: &[u8], i: usize, e: usize) -> (k: usize)
    requires
        i <= e <= b@.len(),
    ensures
        k == skip_ws(b@, i as int, e as int),
        i <= k <= e,
{
    let mut k = i;
    proof {
        lemma_skip_ws(b@, i as int, e as int);
    }
    loop
        invariant
            i <= k <= e,
            e <= b@.len(),
            skip_ws(b@, i as int, e as int) == skip_ws(b@, k as int, e as int),
        decreases e - k,
    {
        let w = ws_width_at(b, k, e);
        if w == 0 {
            return k;
        }
        k = k + w;
    }
}

/// The first `]:` at or after `j` that ends before `e`.
pub fn find_close(b: &[u8], j: usize, e: usize) -> (res: Option<usize>)
    requires
        e <= b@.len(),
    ensures
        match res {
            Some(c) => find_label_close(b@, j as int, e as int) == Some(c as int),
            None => find_label_close(b@, j as int, e as int) is None,
        },
{
    let mut k = j;
    while k < e && e - k > 1
        invariant
            j <= k,
            e <= b@.len(),
            find_label_close(b@, j as int, e as int) == find_label_close(b@, k as int, e as int),
        decreases e - k,
    {
        if b[k] == CLOSE_BRACKET && b[k + 1] == COLON {
            return Some(k);
        }
        k += 1;
    }
    None
}

/// Where the token that starts at `k` ends.
pub fn find_token_end(b: &[u8], k: usize, e: usize) -> (res: usize)
    requires
        k <= e <= b@.len(),
    ensures
        res == token_end(b@, k as int, e as int),
{
    let mut i = k;
    while i < e && !(b[i] == 0x20 || b[i] == 0x09 || b[i] == 0x0a || b[i] == 0x0c || b[i] == 0x0d)
        invariant
            k <= i <= e,
            e <= b@.len(),
            token_end(b@, k as int, e as int) == token_end(b@, i as int, e as int),
        decreases e - i,
    {
        i += 1;
    }
    i
}

/// A char boundary of a valid UTF-8 text is one of every prefix that
/// reaches past it, and conversely.
pub proof fn lemma_boundary_in_prefix(b: Seq<u8>, he: int, a: int)
    requires
        vstd::utf8::valid_utf8(b),
        vstd::utf8::is_char_boundary(b, he),
        0 <= a <= he <= b.len(),
    ensures
        vstd::utf8::valid_utf8(b.subrange(0, he)),
        vstd::utf8::is_char_boundary(b.subrange(0, he), a) == vstd::utf8::is_char_boundary(b, a),
{
    let sub = b.subrange(0, he);
    vstd::utf8::valid_utf8_split(b, he);
    if a < he {
        vstd::utf8::is_char_boundary_iff_not_is_continuation_byte(b, a);
        vstd::utf8::is_char_boundary_iff_not_is_continuation_byte(sub, a);
    } else {
        vstd::utf8::is_char_boundary_start_end_of_seq(sub);
    }
}

/// A link found in a markdown document.
#[derive(Debug, Clone)]
pub struct Link {
    /// Raw href as written in the markdown source
    pub href: String,
    /// Byte offset in `content` where the href string starts
    pub start: usize,
    /// Byte offset in `content` where the href string ends (exclusive)
    pub end: usize,
    /// Absolute, normalized path (None for external URLs or anchor-only links)
    pub resolved: Option<String>,
}

/// A link as a mathematical value.
pub struct LinkView {
    pub href: Seq<char>,
    pub start: int,
    pub end: int,
    pub resolved: Option<Seq<char>>,
}

/// The characters of an optional string.
pub open spec fn opt_view(s: Option<String>) -> Option<Seq<char>> {
    match s {
        Some(t) => Some(t@),
        None => None,
    }
}

impl View for Link {
    type V = LinkView;

    open spec fn view(&self) -> LinkView {
        LinkView {
            href: self.href@,
            start: self.start as int,
            end: self.end as int,
            resolved: opt_view(self.resolved),
        }
    }
}

/// The mathematical values of a run of links.
pub open spec fn links_view(v: Seq<Link>) -> Seq<LinkView> {
    v.map_values(|l: Link| l@)
}

/// The optional string as characters, turned back into a string.
pub fn opt_string(p: Option<Vec<char>>) -> (out: Option<String>)
    ensures
        opt_view(out) == match p {
            Some(v) => Some(v@),
            None => None::<Seq<char>>,
        },
{
    match p {
        Some(v) => Some(crate::text::string_from_chars(&v)),
        None => None,
    }
}

/// The reference definition (`[id]: href`) on the line from `ls` to `le`,
/// if there is one: after leading whitespace the line starts with `[`; the
/// href is the first whitespace-free token after the first `]:`, with the
/// whitespace before it trimmed. An empty href, one that is an absolute URL
/// or that starts with `#`, and one whose ends do not fall on character
/// boundaries, make no link.
pub open spec fn ref_def_in_line(b: Seq<u8>, dir: Seq<char>, ls: int, le: int) -> Seq<LinkView> {
    let t = skip_ws(b, ls, le);
    if !(t < le && b[t] == OPEN_BRACKET) {
        seq![]
    } else {
        match find_label_close(b, t, le) {
            None => seq![],
            Some(j) => {
                let a = skip_ws(b, j + 2, le);
                let he = token_end(b, a, le);
                if a < he && vstd::utf8::is_char_boundary(b, a) && vstd::utf8::is_char_boundary(
                    b,
                    he,
                ) {
                    let href = vstd::utf8::decode_utf8(b.subrange(a, he));
                    if spec_is_external(href) || href[0] == '#' {
                        seq![]
                    } else {
                        seq![
                            LinkView {
                                href,
                                start: a,
                                end: he,
                                resolved: crate::refactor::resolved_href(path_part(href), dir),
                            },
                        ]
                    }
                } else {
                    seq![]
                }
            },
        }
    }
}

/// The reference definitions of the lines of `b` from the one that starts at
/// `ls`, the scan standing at `k` inside it.
pub open spec fn ref_defs_scan(b: Seq<u8>, dir: Seq<char>, ls: int, k: int) -> Seq<LinkView>
    decreases b.len() - k,
{
    if k < 0 || k >= b.len() {
        ref_def_in_line(b, dir, ls, b.len() as int)
    } else if b[k] == NEWLINE {
        ref_def_in_line(b, dir, ls, k) + ref_defs_scan(b, dir, k + 1, k + 1)
    } else {
        ref_defs_scan(b, dir, ls, k + 1)
    }
}

/// The reference definitions (`[id]: href`) of a whole document, line by
/// line.
pub open spec fn ref_definitions(b: Seq<u8>, dir: Seq<char>) -> Seq<LinkView> {
    ref_defs_scan(b, dir, 0, 0)
}

/// The reference definition on the line from `ls` to `le` of `content`.
pub fn ref_def_line(content: &str, bytes: &[u8], dir: &Vec<char>, ls: usize, le: usize) -> (res:
    Option<Link>)
    requires
        bytes@ == vstd::utf8::encode_utf8(content@),
        ls <= le <= bytes@.len(),
    ensures
        match res {
            Some(l) => ref_def_in_line(bytes@, dir@, ls as int, le as int) == seq![l@],
            None => ref_def_in_line(bytes@, dir@, ls as int, le as int) == Seq::<LinkView>::empty(),
        },
{
    let b = bytes;
    let t = skip_whitespace(b, ls, le);
    if !(t < le && b[t] == OPEN_BRACKET) {
        return None;
    }
    let j = match find_close(b, t, le) {
        None => return None,
        Some(j) => j,
    };
    proof {
        lemma_find_label_close(b@, t as int, le as int);
    }
    let a = skip_whitespace(b, j + 2, le);
    let he = find_token_end(b, a, le);
    proof {
        lemma_token_end(b@, a as int, le as int);
    }
    if !(a < he && content.is_char_boundary(a) && content.is_char_boundary(he)) {
        return None;
    }
    proof {
        vstd::utf8::encode_utf8_valid_utf8(content@);
        lemma_boundary_in_prefix(b@, he as int, a as int);
    }
    let (head, _) = content.split_at(he);
    let (_, href_str) = head.split_at(a);
    proof {
        assert(vstd::utf8::encode_utf8(href_str@) =~= b@.subrange(a as int, he as int));
        vstd::utf8::encode_utf8_decode_utf8(href_str@);
    }
    let href = to_chars(href_str);
    if is_external_chars(&href) || href[0] == '#' {
        return None;
    }
    let part = crate::refactor::path_part_chars(&href);
    let resolved = opt_string(crate::refactor::resolve_href_chars(&part, dir));
    let link = Link { href: href_str.to_owned(), start: a, end: he, resolved };
    Some(link)
}

/// Parse `[id]: href` reference definitions using a line-by-line scan.
/// pulldown-cmark does not emit offset events for these, so they are
/// handled separately.
pub fn parse_ref_definitions(content: &str, file_dir: &str) -> (links: Vec<Link>)
    ensures
        links_view(links@) == ref_definitions(vstd::utf8::encode_utf8(content@), file_dir@),
{
    ref_definitions_in(content, &to_chars(file_dir))
}

/// The reference definitions of `content`, resolved from the directory
/// whose characters are `file_dir`.
pub fn ref_definitions_in(content: &str, file_dir: &Vec<char>) -> (links: Vec<Link>)
    ensures
        links_view(links@) == ref_definitions(vstd::utf8::encode_utf8(content@), file_dir@),
{
    let b = content.as_bytes();
    let n = b.len();
    let mut links: Vec<Link> = Vec::new();
    let mut ls: usize = 0;
    for k in 0..n
        invariant
            n == b@.len(),
            b@ == vstd::utf8::encode_utf8(content@),
            ls <= k,
            links_view(links@) + ref_defs_scan(b@, file_dir@, ls as int, k as int)
                == ref_definitions(b@, file_dir@),
    {
        if b[k] == NEWLINE {
            let ghost before = links@;
            match ref_def_line(content, b, file_dir, ls, k) {
                Some(l) => {
                    links.push(l);
                    assert(links_view(links@) =~= links_view(before) + seq![l@]);
                },
                None => {},
            }
            assert(links_view(links@) + ref_defs_scan(b@, file_dir@, (k + 1) as int, (k + 1) as int)
                =~= links_view(before) + ref_defs_scan(b@, file_dir@, ls as int, k as int));
            ls = k + 1;
        }
    }
    let ghost before = links@;
    match ref_def_line(content, b, file_dir, ls, n) {
        Some(l) => {
            links.push(l);
            assert(links_view(links@) =~= links_view(before) + seq![l@]);
        },
        None => {
            assert(links_view(links@) =~= links_view(before) + Seq::<LinkView>::empty());
        },
    }
    links
}

/// An event of a markdown parse that the link search reads: the start of a
/// link or of an image, with its destination and the byte range of source
/// text it covers; any other event.
pub enum MarkdownEvent {
    LinkStart { dest_url: String, start: usize, end: usize },
    ImageStart { dest_url: String, start: usize, end: usize },
    Other,
}

/// A markdown event as a mathematical value.
pub enum MarkdownEventView {
    LinkStart { dest_url: Seq<char>, start: int, end: int },
    ImageStart { dest_url: Seq<char>, start: int, end: int },
    Other,
}

impl View for MarkdownEvent {
    type V = MarkdownEventView;

    open spec fn view(&self) -> MarkdownEventView {
        match self {
            MarkdownEvent::LinkStart { dest_url, start, end } => MarkdownEventView::LinkStart {
                dest_url: dest_url@,
                start: *start as int,
                end: *end as int,
            },
            MarkdownEvent::ImageStart { dest_url, start, end } => MarkdownEventView::ImageStart {
                dest_url: dest_url@,
                start: *start as int,
                end: *end as int,
            },
            MarkdownEvent::Other => MarkdownEventView::Other,
        }
    }
}

/// The mathematical values of a run of events.
pub open spec fn events_view(v: Seq<MarkdownEvent>) -> Seq<MarkdownEventView> {
    v.map_values(|e: MarkdownEvent| e@)
}

/// The link that the start of an inline link or image whose destination is
/// `dest` and whose source covers `start..end` contributes: none for an
/// absolute URL or an anchor-only destination, none where the range is not
/// in the document, none where the href is not found after the label;
/// otherwise the href's range and where it leads from `dir`.
pub open spec fn inline_link(b: Seq<u8>, dir: Seq<char>, dest: Seq<char>, start: int, end: int)
    -> Seq<LinkView> {
    if spec_is_external(dest) || (dest.len() > 0 && dest[0] == '#') {
        seq![]
    } else if !(0 <= start <= end <= b.len()) {
        seq![]
    } else {
        match located_href(b.subrange(start, end), vstd::utf8::encode_utf8(dest), start) {
            None => seq![],
            Some((s, e)) => seq![
                LinkView {
                    href: dest,
                    start: s,
                    end: e,
                    resolved: crate::refactor::resolved_href(path_part(dest), dir),
                },
            ],
        }
    }
}

/// The links that one event contributes.
pub open spec fn event_links(b: Seq<u8>, dir: Seq<char>, ev: MarkdownEventView) -> Seq<LinkView> {
    match ev {
        MarkdownEventView::LinkStart { dest_url, start, end } => inline_link(
            b,
            dir,
            dest_url,
            start,
            end,
        ),
        MarkdownEventView::ImageStart { dest_url, start, end } => inline_link(
            b,
            dir,
            dest_url,
            start,
            end,
        ),
        MarkdownEventView::Other => seq![],
    }
}

/// The links that a run of events contributes, in order.
pub open spec fn inline_links(b: Seq<u8>, dir: Seq<char>, evs: Seq<MarkdownEventView>) -> Seq<
    LinkView,
>
    decreases evs.len(),
{
    if evs.len() == 0 {
        seq![]
    } else {
        inline_links(b, dir, evs.drop_last()) + event_links(b, dir, evs.last())
    }
}

/// Inserting `x` into a run sorted by start, after every link that does not
/// start later.
pub open spec fn insert_by_start(s: Seq<LinkView>, x: LinkView) -> Seq<LinkView>
    decreases s.len(),
{
    if s.len() == 0 {
        seq![x]
    } else if s.last().start <= x.start {
        s.push(x)
    } else {
        insert_by_start(s.drop_last(), x).push(s.last())
    }
}

/// A run of links sorted by start, links that start at the same offset in
/// the order they came in.
pub open spec fn sort_by_start(s: Seq<LinkView>) -> Seq<LinkView>
    decreases s.len(),
{
    if s.len() == 0 {
        s
    } else {
        insert_by_start(sort_by_start(s.drop_last()), s.last())
    }
}

/// The links of a document whose text is `content` and whose path is
/// `file_path`, given the parse events `evs`: the inline links and images,
/// then the reference definitions, sorted by the offset of their href.
pub open spec fn document_links(content: Seq<char>, file_path: Seq<char>, evs: Seq<MarkdownEventView>) -> Seq<LinkView> {
    let b = vstd::utf8::encode_utf8(content);
    let dir = crate::path::parent_dir(file_path);
    sort_by_start(inline_links(b, dir, evs) + ref_definitions(b, dir))
}

/// Inserting at the place found by scanning back from the end.
pub proof fn lemma_insert_by_start(s: Seq<LinkView>, x: LinkView, p: int)
    requires
        0 <= p <= s.len(),
        p == 0 || s[p - 1].start <= x.start,
        forall|k: int| p <= k < s.len() ==> #[trigger] s[k].start > x.start,
    ensures
        insert_by_start(s, x) == s.take(p).push(x) + s.skip(p),
    decreases s.len(),
{
    if s.len() == 0 {
        assert(s.take(p).push(x) + s.skip(p) =~= seq![x]);
    } else if s.last().start <= x.start {
        assert(p == s.len()) by {
            if p < s.len() {
                assert(s[s.len() - 1].start > x.start);
            }
        }
        assert(s.take(p).push(x) + s.skip(p) =~= s.push(x));
    } else {
        let s1 = s.drop_last();
        assert(p < s.len()) by {
            if p == s.len() {
                assert(s[p - 1] == s.last());
            }
        }
        lemma_insert_by_start(s1, x, p);
        assert((s1.take(p).push(x) + s1.skip(p)).push(s.last()) =~= s.take(p).push(x) + s.skip(p));
    }
}

/// `links` with `x` inserted after every link that does not start later.
pub fn insert_link(links: &mut Vec<Link>, x: Link)
    ensures
        links_view(final(links)@) == insert_by_start(links_view(old(links)@), x@),
{
    let ghost s = links_view(links@);
    let mut p = links.len();
    while p > 0 && links[p - 1].start > x.start
        invariant
            p <= links@.len(),
            s == links_view(links@),
            forall|k: int| p <= k < s.len() ==> #[trigger] s[k].start > x@.start,
        decreases p,
    {
        p -= 1;
    }
    proof {
        lemma_insert_by_start(s, x@, p as int);
    }
    links.insert(p, x);
    assert(links_view(links@) =~= s.take(p as int).push(x@) + s.skip(p as int));
}

/// The links of one event of `content`, resolved from `dir`.
pub fn event_link(content: &str, bytes: &[u8], dir: &Vec<char>, ev: &MarkdownEvent) -> (res: Option<Link>)
    requires
        bytes@ == vstd::utf8::encode_utf8(content@),
    ensures
        match res {
            Some(l) => event_links(bytes@, dir@, ev@) == seq![l@],
            None => event_links(bytes@, dir@, ev@) == Seq::<LinkView>::empty(),
        },
{
    let (dest_url, start, end) = match ev {
        MarkdownEvent::LinkStart { dest_url, start, end } => (dest_url, *start, *end),
        MarkdownEvent::ImageStart { dest_url, start, end } => (dest_url, *start, *end),
        MarkdownEvent::Other => return None,
    };
    let href = to_chars(dest_url.as_str());
    if is_external_chars(&href) || (href.len() > 0 && href[0] == '#') {
        return None;
    }
    if !(start <= end && end <= bytes.len()) {
        return None;
    }
    let raw = vstd::slice::slice_subrange(bytes, start, end);
    let href_bytes = dest_url.as_str().as_bytes();
    match locate_href_in_slice(raw, href_bytes, start) {
        None => None,
        Some((s, e)) => {
            let part = crate::refactor::path_part_chars(&href);
            let resolved = opt_string(crate::refactor::resolve_href_chars(&part, dir));
            Some(Link { href: dest_url.clone(), start: s, end: e, resolved })
        },
    }
}

/// The links of a document whose text is `content` and whose path is
/// `file_path`, given what the markdown parser yields for it: inline links
/// and images whose href is found after the label, then reference
/// definitions, sorted by the offset of their href. Absolute URLs and
/// anchor-only hrefs are skipped.
pub fn links_from_events(content: &str, file_path: &str, events: &Vec<MarkdownEvent>) -> (links:
    Vec<Link>)
    ensures
        links_view(links@) == document_links(content@, file_path@, events_view(events@)),
{
    let bytes = content.as_bytes();
    let path = to_chars(file_path);
    let dir = crate::path::parent_dir_chars(&path);
    let ghost evs = events_view(events@);
    let mut found: Vec<Link> = Vec::new();
    for i in 0..events.len()
        invariant
            bytes@ == vstd::utf8::encode_utf8(content@),
            evs == events_view(events@),
            links_view(found@) == inline_links(bytes@, dir@, evs.take(i as int)),
    {
        assert(evs.take(i + 1).drop_last() =~= evs.take(i as int));
        assert(evs.take(i + 1).last() == events@[i as int]@);
        let ghost before = found@;
        match event_link(content, bytes, &dir, &events[i]) {
            Some(l) => {
                found.push(l);
                assert(links_view(found@) =~= links_view(before) + seq![l@]);
            },
            None => {
                assert(links_view(found@) =~= links_view(before) + Seq::<LinkView>::empty());
            },
        }
    }
    assert(evs.take(events.len() as int) =~= evs);
    let mut refs = ref_definitions_in(content, &dir);
    let ghost all = links_view(found@) + links_view(refs@);
    let mut remaining = found;
    remaining.append(&mut refs);
    assert(links_view(remaining@) =~= all);
    // Sort by start offset for predictable ordering (stable).
    let mut sorted: Vec<Link> = Vec::new();
    let n = remaining.len();
    let mut i: usize = 0;
    assert(all.take(0) =~= Seq::<LinkView>::empty());
    assert(all.skip(0) =~= all);
    while i < n
        invariant
            n == all.len(),
            i <= n,
            remaining@.len() == n - i,
            links_view(remaining@) == all.skip(i as int),
            links_view(sorted@) == sort_by_start(all.take(i as int)),
        decreases n - i,
    {
        let ghost before = remaining@;
        let x = remaining.remove(0);
        assert(x@ == links_view(before)[0]);
        assert(links_view(before)[0] == all[i as int]);
        assert(remaining@ =~= before.skip(1));
        assert(links_view(before.skip(1)) =~= links_view(before).skip(1));
        assert(links_view(before).skip(1) =~= all.skip(i + 1));
        assert(all.take(i + 1).drop_last() =~= all.take(i as int));
        insert_link(&mut sorted, x);
        i += 1;
    }
    assert(all.take(n as int) =~= all);
    sorted
}

/// The events that pulldown-cmark yields for a document, as link and image
/// starts with their ranges and other events. What the parser yields is not
/// stated here: it depends on the document alone.
pub uninterp spec fn markdown_events(content: Seq<char>) -> Seq<MarkdownEventView>;

/// `pulldown_cmark::Parser::new_ext` with `Options::all()`, read through
/// `into_offset_iter`: one event for each event the parser yields, in order.
/// A link or image start keeps its destination URL and the byte range of the
/// source it covers; every other event becomes `Other`. The contract claims
/// only that the result is the one named by `markdown_events` for the
/// document.
#[verifier::external_body]
fn offset_events(content: &str) -> (events: Vec<MarkdownEvent>)
    ensures
        events_view(events@) == markdown_events(content@),
{
    Parser::new_ext(content, Options::all()).into_offset_iter().map(|(event, range)| match event {
        Event::Start(Tag::Link { dest_url, .. }) => MarkdownEvent::LinkStart {
            dest_url: dest_url.into_string(),
            start: range.start,
            end: range.end,
        },
        Event::Start(Tag::Image { dest_url, .. }) => MarkdownEvent::ImageStart {
            dest_url: dest_url.into_string(),
            start: range.start,
            end: range.end,
        },
        _ => MarkdownEvent::Other,
    }).collect()
}

/// Parse all markdown links and images from `content`, resolving relative
/// hrefs against the directory containing `file_path`.
pub fn parse_links(content: &str, file_path: &str) -> (links: Vec<Link>)
    ensures
        links_view(links@) == document_links(content@, file_path@, markdown_events(content@)),
        forall|i: int|
            0 <= i < links@.len() ==> found_at(
                vstd::utf8::encode_utf8(content@),
                crate::path::parent_dir(file_path@),
                #[trigger] links@[i]@,
            ),
        sorted_by_start(links_view(links@)),
{
    let events = offset_events(content);
    let links = links_from_events(content, file_path, &events);
    proof {
        law_links_found_in_order(content@, file_path@, markdown_events(content@));
        assert forall|i: int| 0 <= i < links@.len() implies found_at(
            vstd::utf8::encode_utf8(content@),
            crate::path::parent_dir(file_path@),
            #[trigger] links@[i]@,
        ) by {
            assert(links_view(links@)[i] == links@[i]@);
        }
    }
    links
}

/// A link found where it says it is: its range lies in the text `b` and
/// holds exactly the UTF-8 bytes of its href, its href is neither an
/// absolute URL nor an anchor, and it is resolved from the directory `dir`
/// as its path part leads from there.
pub open spec fn found_at(b: Seq<u8>, dir: Seq<char>, l: LinkView) -> bool {
    &&& 0 <= l.start <= l.end <= b.len()
    &&& vstd::utf8::encode_utf8(l.href) == b.subrange(l.start, l.end)
    &&& !spec_is_external(l.href)
    &&& !(l.href.len() > 0 && l.href[0] == '#')
    &&& l.resolved == crate::refactor::resolved_href(path_part(l.href), dir)
}

/// Whether links come in the order of their starts.
pub open spec fn sorted_by_start(s: Seq<LinkView>) -> bool {
    forall|i: int, j: int| 0 <= i < j < s.len() ==> s[i].start <= s[j].start
}

pub proof fn lemma_find_bytes_from(hay: Seq<u8>, needle: Seq<u8>, i: int)
    ensures
        find_bytes_from(hay, needle, i) matches Some(q) ==> {
            &&& i <= q
            &&& 0 <= q
            &&& q + needle.len() <= hay.len()
            &&& hay.subrange(q, q + needle.len()) == needle
        },
    decreases hay.len() + 1 - i,
{
    if !(i < 0 || i + needle.len() > hay.len()) && hay.subrange(i, i + needle.len()) != needle {
        lemma_find_bytes_from(hay, needle, i + 1);
    }
}

/// The link of an event is found where it says it is.
pub proof fn lemma_event_links_found(b: Seq<u8>, dir: Seq<char>, ev: MarkdownEventView)
    ensures
        forall|i: int| 0 <= i < event_links(b, dir, ev).len() ==> found_at(b, dir, #[trigger] event_links(b, dir, ev)[i]),
{
    match ev {
        MarkdownEventView::LinkStart { dest_url, start, end } => {
            lemma_inline_link_found(b, dir, dest_url, start, end);
        },
        MarkdownEventView::ImageStart { dest_url, start, end } => {
            lemma_inline_link_found(b, dir, dest_url, start, end);
        },
        MarkdownEventView::Other => {},
    }
}

proof fn lemma_inline_link_found(b: Seq<u8>, dir: Seq<char>, dest: Seq<char>, start: int, end: int)
    ensures
        forall|i: int| 0 <= i < inline_link(b, dir, dest, start, end).len() ==> found_at(b, dir, #[trigger] inline_link(b, dir, dest, start, end)[i]),
{
    if !(spec_is_external(dest) || (dest.len() > 0 && dest[0] == '#')) && 0 <= start <= end <= b.len() {
        let raw = b.subrange(start, end);
        let hb = vstd::utf8::encode_utf8(dest);
        match link_paren(raw) {
            Some(p) => {
                lemma_find_bytes_from(raw, hb, p + 1);
                match find_bytes_from(raw, hb, p + 1) {
                    Some(q) => {
                        assert(b.subrange(start + q, start + q + hb.len()) =~= raw.subrange(q, q + hb.len()));
                    },
                    None => {},
                }
            },
            None => {},
        }
    }
}

/// The links of a run of events are found where they say they are.
pub proof fn lemma_inline_links_found(b: Seq<u8>, dir: Seq<char>, evs: Seq<MarkdownEventView>)
    ensures
        forall|i: int| 0 <= i < inline_links(b, dir, evs).len() ==> found_at(b, dir, #[trigger] inline_links(b, dir, evs)[i]),
    decreases evs.len(),
{
    if evs.len() > 0 {
        lemma_inline_links_found(b, dir, evs.drop_last());
        lemma_event_links_found(b, dir, evs.last());
        let a = inline_links(b, dir, evs.drop_last());
        let c = event_links(b, dir, evs.last());
        assert forall|i: int| 0 <= i < (a + c).len() implies found_at(b, dir, #[trigger] (a + c)[i]) by {
            if i < a.len() {
                assert((a + c)[i] == a[i]);
            } else {
                assert((a + c)[i] == c[i - a.len()]);
            }
        }
    }
}

/// A reference definition is found where it says it is.
pub proof fn lemma_ref_def_found(b: Seq<u8>, dir: Seq<char>, ls: int, le: int)
    requires
        vstd::utf8::valid_utf8(b),
    ensures
        forall|i: int| 0 <= i < ref_def_in_line(b, dir, ls, le).len() ==> found_at(b, dir, #[trigger] ref_def_in_line(b, dir, ls, le)[i]),
{
    let t = skip_ws(b, ls, le);
    if t < le && b[t] == OPEN_BRACKET {
        match find_label_close(b, t, le) {
            Some(j) => {
                let a = skip_ws(b, j + 2, le);
                let he = token_end(b, a, le);
                if 0 <= a < he && he <= b.len() && vstd::utf8::is_char_boundary(b, a) && vstd::utf8::is_char_boundary(b, he) {
                    lemma_boundary_in_prefix(b, he, a);
                    let head = b.subrange(0, he);
                    vstd::utf8::valid_utf8_split(head, a);
                    assert(head.subrange(a, head.len() as int) =~= b.subrange(a, he));
                    vstd::utf8::decode_utf8_encode_utf8(b.subrange(a, he));
                }
            },
            None => {},
        }
    }
}

/// Where a line scan starts inside the text, its reference definitions are
/// found where they say they are.
pub proof fn lemma_ref_defs_found(b: Seq<u8>, dir: Seq<char>, ls: int, k: int)
    requires
        vstd::utf8::valid_utf8(b),
        0 <= ls <= k,
    ensures
        forall|i: int| 0 <= i < ref_defs_scan(b, dir, ls, k).len() ==> found_at(b, dir, #[trigger] ref_defs_scan(b, dir, ls, k)[i]),
    decreases b.len() - k,
{
    if k >= b.len() {
        lemma_ref_def_found(b, dir, ls, b.len() as int);
        assert(ref_defs_scan(b, dir, ls, k) == ref_def_in_line(b, dir, ls, b.len() as int));
    } else if b[k] == NEWLINE {
        assert(ref_defs_scan(b, dir, ls, k) == ref_def_in_line(b, dir, ls, k) + ref_defs_scan(b, dir, k + 1, k + 1));
        lemma_ref_def_found(b, dir, ls, k);
        lemma_ref_defs_found(b, dir, k + 1, k + 1);
        let a = ref_def_in_line(b, dir, ls, k);
        let c = ref_defs_scan(b, dir, k + 1, k + 1);
        assert forall|i: int| 0 <= i < (a + c).len() implies found_at(b, dir, #[trigger] (a + c)[i]) by {
            if i < a.len() {
                assert((a + c)[i] == a[i]);
            } else {
                assert((a + c)[i] == c[i - a.len()]);
            }
        }
    } else {
        assert(ref_defs_scan(b, dir, ls, k) == ref_defs_scan(b, dir, ls, k + 1));
        lemma_ref_defs_found(b, dir, ls, k + 1);
    }
}

/// Whether the href of a link stands in `b` as a token: a run of bytes
/// that is not empty and holds no ASCII whitespace.
pub open spec fn is_token_at(b: Seq<u8>, l: LinkView) -> bool {
    &&& l.start < l.end
    &&& forall|k: int| l.start <= k < l.end ==> !is_ascii_ws(#[trigger] b[k])
}

proof fn lemma_token_end_clean(b: Seq<u8>, k: int, e: int)
    requires
        0 <= k <= e,
    ensures
        forall|m: int| k <= m < token_end(b, k, e) ==> !is_ascii_ws(#[trigger] b[m]),
    decreases e - k,
{
    if k < e && !is_ascii_ws(b[k]) {
        lemma_token_end_clean(b, k + 1, e);
    }
}

proof fn lemma_ref_def_shape(b: Seq<u8>, dir: Seq<char>, ls: int, le: int)
    requires
        0 <= ls <= le <= b.len(),
    ensures
        forall|i: int|
            0 <= i < ref_def_in_line(b, dir, ls, le).len() ==> {
                let l = #[trigger] ref_def_in_line(b, dir, ls, le)[i];
                &&& ls <= l.start
                &&& l.end <= le
                &&& is_token_at(b, l)
            },
        ref_def_in_line(b, dir, ls, le).len() <= 1,
{
    lemma_skip_ws(b, ls, le);
    let t = skip_ws(b, ls, le);
    if t < le && b[t] == OPEN_BRACKET {
        lemma_find_label_close(b, t, le);
        match find_label_close(b, t, le) {
            Some(j) => {
                lemma_skip_ws(b, j + 2, le);
                let a = skip_ws(b, j + 2, le);
                lemma_token_end(b, a, le);
                lemma_token_end_clean(b, a, le);
            },
            None => {},
        }
    }
}

proof fn lemma_ref_defs_shape(b: Seq<u8>, dir: Seq<char>, ls: int, k: int)
    requires
        0 <= ls <= k,
        ls <= b.len(),
    ensures
        ({
            let d = ref_defs_scan(b, dir, ls, k);
            &&& forall|i: int|
                0 <= i < d.len() ==> ls <= (#[trigger] d[i]).start && d[i].end <= b.len() && is_token_at(
                    b,
                    d[i],
                )
            &&& forall|i: int, j: int| 0 <= i < j < d.len() ==> #[trigger] d[i].end < #[trigger] d[j].start
        }),
    decreases b.len() - k,
{
    if k >= b.len() {
        lemma_ref_def_shape(b, dir, ls, b.len() as int);
    } else if b[k] == NEWLINE {
        lemma_ref_def_shape(b, dir, ls, k);
        lemma_ref_defs_shape(b, dir, k + 1, k + 1);
        let a = ref_def_in_line(b, dir, ls, k);
        let c = ref_defs_scan(b, dir, k + 1, k + 1);
        let d = a + c;
        assert(ref_defs_scan(b, dir, ls, k) == d);
        assert forall|i: int|
            0 <= i < d.len() implies ls <= (#[trigger] d[i]).start && d[i].end <= b.len() && is_token_at(
            b,
            d[i],
        ) by {
            if i < a.len() {
                assert(d[i] == a[i]);
            } else {
                assert(d[i] == c[i - a.len()]);
            }
        }
        assert forall|i: int, j: int| 0 <= i < j < d.len() implies #[trigger] d[i].end < #[trigger] d[j].start by {
            if j < a.len() {
                assert(false);
            } else if i < a.len() {
                assert(d[i] == a[i]);
                assert(d[j] == c[j - a.len()]);
            } else {
                assert(d[i] == c[i - a.len()]);
                assert(d[j] == c[j - a.len()]);
            }
        }
    } else {
        lemma_ref_defs_shape(b, dir, ls, k + 1);
    }
}

/// The hrefs of the reference definitions of a document stand in it as
/// tokens (not empty, free of ASCII whitespace), each after the one before.
pub proof fn law_ref_definitions_shape(b: Seq<u8>, dir: Seq<char>)
    ensures
        forall|i: int|
            0 <= i < ref_definitions(b, dir).len() ==> is_token_at(b, #[trigger] ref_definitions(b, dir)[i]),
        forall|i: int, j: int|
            0 <= i < j < ref_definitions(b, dir).len() ==> #[trigger] ref_definitions(b, dir)[i].end
                < #[trigger] ref_definitions(b, dir)[j].start,
{
    lemma_ref_defs_shape(b, dir, 0, 0);
}

/// Whether `k` is where the first `]:` at or after `t` stands, ending before
/// `e`.
pub open spec fn first_label_close(b: Seq<u8>, t: int, e: int, k: int) -> bool {
    &&& 0 <= t <= k
    &&& k + 1 < e
    &&& e <= b.len()
    &&& b[k] == CLOSE_BRACKET
    &&& b[k + 1] == COLON
    &&& forall|m: int| t <= m < k ==> !(#[trigger] b[m] == CLOSE_BRACKET && b[m + 1] == COLON)
}

/// Whether `ls..le` is a whole line of `b`: it starts the text or follows a
/// line feed, it ends the text or is followed by one, and holds none.
pub open spec fn is_line(b: Seq<u8>, ls: int, le: int) -> bool {
    &&& 0 <= ls <= le <= b.len()
    &&& (ls == 0 || b[ls - 1] == NEWLINE)
    &&& (le == b.len() || b[le] == NEWLINE)
    &&& forall|m: int| ls <= m < le ==> #[trigger] b[m] != NEWLINE
}

proof fn lemma_first_label_close(b: Seq<u8>, j: int, e: int, k: int)
    requires
        0 <= j,
        first_label_close(b, j, e, k),
    ensures
        find_label_close(b, j, e) == Some(k),
    decreases k - j,
{
    if j < k {
        assert(!(b[j] == CLOSE_BRACKET && b[j + 1] == COLON));
        assert(first_label_close(b, j + 1, e, k));
        lemma_first_label_close(b, j + 1, e, k);
    }
}

proof fn lemma_scan_holds_line(b: Seq<u8>, dir: Seq<char>, ls: int, le: int, k: int)
    requires
        0 <= ls <= k <= le <= b.len(),
        le == b.len() || b[le] == NEWLINE,
        forall|m: int| k <= m < le ==> #[trigger] b[m] != NEWLINE,
    ensures
        forall|i: int|
            0 <= i < ref_def_in_line(b, dir, ls, le).len() ==> ref_defs_scan(b, dir, ls, k).contains(
                #[trigger] ref_def_in_line(b, dir, ls, le)[i],
            ),
    decreases le - k,
{
    let line = ref_def_in_line(b, dir, ls, le);
    if k == le {
        if le == b.len() {
            assert(ref_defs_scan(b, dir, ls, k) == line);
            assert forall|i: int| 0 <= i < line.len() implies ref_defs_scan(b, dir, ls, k).contains(#[trigger] line[i]) by {
                assert(ref_defs_scan(b, dir, ls, k)[i] == line[i]);
            }
        } else {
            let sc = ref_defs_scan(b, dir, ls, k);
            assert(sc == line + ref_defs_scan(b, dir, k + 1, k + 1));
            assert forall|i: int| 0 <= i < line.len() implies sc.contains(#[trigger] line[i]) by {
                assert(sc[i] == line[i]);
            }
        }
    } else {
        assert(b[k] != NEWLINE);
        assert(ref_defs_scan(b, dir, ls, k) == ref_defs_scan(b, dir, ls, k + 1));
        lemma_scan_holds_line(b, dir, ls, le, k + 1);
    }
}

proof fn lemma_scan_reaches_line(b: Seq<u8>, dir: Seq<char>, ls0: int, k: int, ls: int)
    requires
        0 <= ls0 <= k < ls <= b.len(),
        b[ls - 1] == NEWLINE,
    ensures
        forall|i: int|
            0 <= i < ref_defs_scan(b, dir, ls, ls).len() ==> ref_defs_scan(b, dir, ls0, k).contains(
                #[trigger] ref_defs_scan(b, dir, ls, ls)[i],
            ),
    decreases ls - k,
{
    let target = ref_defs_scan(b, dir, ls, ls);
    let sc = ref_defs_scan(b, dir, ls0, k);
    if b[k] == NEWLINE {
        let line = ref_def_in_line(b, dir, ls0, k);
        let rest = ref_defs_scan(b, dir, k + 1, k + 1);
        assert(sc == line + rest);
        if k + 1 < ls {
            lemma_scan_reaches_line(b, dir, k + 1, k + 1, ls);
        }
        assert forall|i: int| 0 <= i < target.len() implies sc.contains(#[trigger] target[i]) by {
            assert(rest.contains(target[i])) by {
                if k + 1 == ls {
                    assert(rest[i] == target[i]);
                }
            }
            let j = choose|j: int| 0 <= j < rest.len() && rest[j] == target[i];
            assert(sc[line.len() + j] == rest[j]);
        }
    } else {
        assert(k + 1 < ls);
        assert(sc == ref_defs_scan(b, dir, ls0, k + 1));
        lemma_scan_reaches_line(b, dir, ls0, k + 1, ls);
    }
}

proof fn lemma_token_end_first_ws(b: Seq<u8>, k: int, e: int, he: int)
    requires
        0 <= k <= he <= e,
        e <= b.len(),
        forall|m: int| k <= m < he ==> !is_ascii_ws(#[trigger] b[m]),
        he == e || is_ascii_ws(b[he]),
    ensures
        token_end(b, k, e) == he,
    decreases he - k,
{
    if k < he {
        assert(!is_ascii_ws(b[k]));
        lemma_token_end_first_ws(b, k + 1, e, he);
    }
}

/// Every reference definition is found: on a line of `b` whose text, once
/// leading whitespace is trimmed (from `t` on), starts with `[` and holds
/// `]:` (first at `k`, whatever the label before it holds, spaces
/// included), followed after whitespace by a token from `a` to `he` (a run
/// free of ASCII whitespace that ends at whitespace or at the end of the
/// line) that is no absolute URL and no anchor, the reference definitions of
/// `b` hold a link with that token as its href and its range.
pub proof fn law_ref_definition_found(b: Seq<u8>, dir: Seq<char>, ls: int, le: int, t: int, k: int, a: int, he: int)
    requires
        is_line(b, ls, le),
        t == skip_ws(b, ls, le),
        t < le,
        b[t] == OPEN_BRACKET,
        first_label_close(b, t, le, k),
        a == skip_ws(b, k + 2, le),
        a < he <= le,
        forall|m: int| a <= m < he ==> !is_ascii_ws(#[trigger] b[m]),
        he == le || is_ascii_ws(b[he]),
        vstd::utf8::is_char_boundary(b, a),
        vstd::utf8::is_char_boundary(b, he),
        !spec_is_external(vstd::utf8::decode_utf8(b.subrange(a, he))),
        vstd::utf8::decode_utf8(b.subrange(a, he))[0] != '#',
    ensures
        exists|i: int|
            0 <= i < ref_definitions(b, dir).len() && (#[trigger] ref_definitions(b, dir)[i]).start == a
                && ref_definitions(b, dir)[i].end == he && ref_definitions(b, dir)[i].href
                == vstd::utf8::decode_utf8(b.subrange(a, he)),
{
    lemma_skip_ws(b, ls, le);
    lemma_first_label_close(b, t, le, k);
    lemma_skip_ws(b, k + 2, le);
    lemma_token_end_first_ws(b, a, le, he);
    let line = ref_def_in_line(b, dir, ls, le);
    assert(line.len() == 1);
    let x = line[0];
    assert(x.start == a && x.end == he && x.href == vstd::utf8::decode_utf8(b.subrange(a, he)));
    lemma_scan_holds_line(b, dir, ls, le, ls);
    assert(ref_defs_scan(b, dir, ls, ls).contains(x));
    let all = ref_definitions(b, dir);
    if ls == 0 {
        assert(all.contains(x));
    } else {
        lemma_scan_reaches_line(b, dir, 0, 0, ls);
        let j = choose|j: int| 0 <= j < ref_defs_scan(b, dir, ls, ls).len() && ref_defs_scan(b, dir, ls, ls)[j] == x;
        assert(all.contains(ref_defs_scan(b, dir, ls, ls)[j]));
    }
    let i = choose|i: int| 0 <= i < all.len() && all[i] == x;
    assert(all[i].start == a);
}

/// Inserting keeps a sorted run sorted, and brings in nothing but the new
/// link.
pub proof fn lemma_insert_by_start_props(s: Seq<LinkView>, x: LinkView)
    ensures
        insert_by_start(s, x).len() == s.len() + 1,
        forall|i: int| 0 <= i < insert_by_start(s, x).len() ==> (#[trigger] insert_by_start(s, x)[i] == x || s.contains(insert_by_start(s, x)[i])),
        sorted_by_start(s) ==> sorted_by_start(insert_by_start(s, x)),
    decreases s.len(),
{
    let r = insert_by_start(s, x);
    if s.len() == 0 {
    } else if s.last().start <= x.start {
        assert forall|i: int| 0 <= i < r.len() implies (#[trigger] r[i] == x || s.contains(r[i])) by {
            if i < s.len() {
                assert(r[i] == s[i]);
            }
        }
        if sorted_by_start(s) {
            assert forall|i: int, j: int| 0 <= i < j < r.len() implies r[i].start <= r[j].start by {
                if j == s.len() {
                    assert(s[i].start <= s[s.len() - 1].start);
                }
            }
        }
    } else {
        let s1 = s.drop_last();
        lemma_insert_by_start_props(s1, x);
        let r1 = insert_by_start(s1, x);
        assert(r == r1.push(s.last()));
        assert forall|i: int| 0 <= i < r.len() implies (#[trigger] r[i] == x || s.contains(r[i])) by {
            if i < r1.len() {
                assert(r[i] == r1[i]);
                if r1[i] != x {
                    assert(s1.contains(r1[i]));
                    let k = choose|k: int| 0 <= k < s1.len() && s1[k] == r1[i];
                    assert(s[k] == r1[i]);
                }
            } else {
                assert(s[s.len() - 1] == s.last());
            }
        }
        if sorted_by_start(s) {
            assert(sorted_by_start(s1)) by {
                assert forall|i: int, j: int| 0 <= i < j < s1.len() implies s1[i].start <= s1[j].start by {
                    assert(s1[i] == s[i] && s1[j] == s[j]);
                }
            }
            assert forall|i: int, j: int| 0 <= i < j < r.len() implies r[i].start <= r[j].start by {
                if j == r1.len() {
                    assert(r[i] == r1[i]);
                    if r1[i] == x {
                    } else {
                        let k = choose|k: int| 0 <= k < s1.len() && s1[k] == r1[i];
                        assert(s[k].start <= s[s.len() - 1].start);
                    }
                } else {
                    assert(r[i] == r1[i] && r[j] == r1[j]);
                }
            }
        }
    }
}

/// Sorting yields a sorted run that holds nothing but links of the input.
pub proof fn lemma_sort_by_start_props(s: Seq<LinkView>)
    ensures
        sort_by_start(s).len() == s.len(),
        sorted_by_start(sort_by_start(s)),
        forall|i: int| 0 <= i < sort_by_start(s).len() ==> s.contains(#[trigger] sort_by_start(s)[i]),
    decreases s.len(),
{
    if s.len() > 0 {
        let s1 = s.drop_last();
        lemma_sort_by_start_props(s1);
        lemma_insert_by_start_props(sort_by_start(s1), s.last());
        let r = sort_by_start(s);
        assert forall|i: int| 0 <= i < r.len() implies s.contains(#[trigger] r[i]) by {
            if r[i] == s.last() {
                assert(s[s.len() - 1] == s.last());
            } else {
                let t = sort_by_start(s1);
                let k = choose|k: int| 0 <= k < t.len() && t[k] == r[i];
                assert(s1.contains(t[k]));
                let m = choose|m: int| 0 <= m < s1.len() && s1[m] == t[k];
                assert(s[m] == r[i]);
            }
        }
    }
}

/// Every link found in a document lies where it says it does, is a
/// relative link (no absolute URL, no anchor alone) and is resolved from the
/// directory of the document, whatever the parser's events; and the links
/// come in the order of their offsets.
pub proof fn law_links_found_in_order(content: Seq<char>, file_path: Seq<char>, evs: Seq<MarkdownEventView>)
    ensures
        ({
            let links = document_links(content, file_path, evs);
            let b = vstd::utf8::encode_utf8(content);
            let dir = crate::path::parent_dir(file_path);
            &&& forall|i: int| 0 <= i < links.len() ==> found_at(b, dir, #[trigger] links[i])
            &&& sorted_by_start(links)
        }),
{
    let b = vstd::utf8::encode_utf8(content);
    let dir = crate::path::parent_dir(file_path);
    vstd::utf8::encode_utf8_valid_utf8(content);
    lemma_inline_links_found(b, dir, evs);
    lemma_ref_defs_found(b, dir, 0, 0);
    let a = inline_links(b, dir, evs);
    let c = ref_definitions(b, dir);
    let all = a + c;
    lemma_sort_by_start_props(all);
    let links = sort_by_start(all);
    assert forall|i: int| 0 <= i < links.len() implies found_at(b, dir, #[trigger] links[i]) by {
        let k = choose|k: int| 0 <= k < all.len() && all[k] == links[i];
        if k < a.len() {
            assert(all[k] == a[k]);
        } else {
            assert(all[k] == c[k - a.len()]);
        }
    }
}

/// An href is its path part followed by its fragment, and the path part
/// holds no `#`.
pub proof fn law_fragment_split_rejoins(href: Seq<char>)
    ensures
        path_part(href) + match fragment(href) {
            Some(f) => f,
            None => Seq::<char>::empty(),
        } == href,
        !path_part(href).contains('#'),
        fragment(href) matches Some(f) ==> f.len() > 0 && f[0] == '#',
{
    lemma_index_of_from(href, '#', 0);
    match index_of(href, '#') {
        Some(i) => {
            assert(href.take(i) + href.skip(i) =~= href);
        },
        None => {
            assert(href + Seq::<char>::empty() =~= href);
        },
    }
    assert(!path_part(href).contains('#')) by {
        if path_part(href).contains('#') {
            let k = choose|k: int| 0 <= k < path_part(href).len() && path_part(href)[k] == '#';
            assert(href[k] == '#');
        }
    }
}

} // verus!

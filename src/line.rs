//! The grammar of a single line: nesting depth, line kinds and the checkbox
//! that opens an item.
use crate::item::Record;
use crate::text::{
    chars_of, is_blank, is_space, is_space_char, lemma_skip_space, lemma_trim_end_shape,
    lemma_trim_start_at, skip_space, trim, trim_end, trim_start, trim_text,
};
use vstd::prelude::*;
use vstd::string::{StrSliceExecFns, StringExecFns};

verus! {

/// How often `c` occurs in `s`.
pub open spec fn count_char(s: Seq<char>, c: char) -> nat
    decreases s.len(),
{
    if s.len() == 0 {
        0
    } else {
        count_char(s.drop_last(), c) + if s.last() == c {
            1nat
        } else {
            0nat
        }
    }
}

/// The nesting depth that a run of white space stands for: one level per tab
/// and one per four spaces.
pub open spec fn nest_depth(s: Seq<char>) -> nat {
    count_char(s, '\t') + count_char(s, ' ') / 4
}

/// The nesting depth as a `u8`; depths beyond `u8::MAX` are held at `u8::MAX`.
pub open spec fn nest_level(s: Seq<char>) -> u8 {
    if nest_depth(s) <= u8::MAX {
        nest_depth(s) as u8
    } else {
        u8::MAX
    }
}

/// Calculates the nest level of a run of white space.
///
/// Nesting can be done by any combination of one tab per level and four
/// spaces per level; the counts add up, and one to three spare spaces count
/// for nothing.
pub fn whitespace_to_nest(s: &str) -> (r: u8)
    ensures
        r == nest_level(s@),
{
    let v = chars_of(s);
    let n = v.len();
    let mut tabs: usize = 0;
    let mut spaces: usize = 0;
    let mut i: usize = 0;
    while i < n
        invariant
            i <= n,
            n == v@.len(),
            v@ == s@,
            tabs + spaces <= i,
            tabs == count_char(v@.subrange(0, i as int), '\t'),
            spaces == count_char(v@.subrange(0, i as int), ' '),
        decreases n - i,
    {
        proof {
            assert(v@.subrange(0, i + 1).drop_last() =~= v@.subrange(0, i as int));
        }
        if v[i] == '\t' {
            tabs = tabs + 1;
        } else if v[i] == ' ' {
            spaces = spaces + 1;
        }
        i = i + 1;
    }
    proof {
        assert(v@.subrange(0, n as int) =~= s@);
    }
    let depth = tabs + spaces / 4;
    if depth <= 255 {
        depth as u8
    } else {
        255
    }
}

/// A list bullet that may stand before a checkbox: `*`, `+`, `-`, `•`, or a
/// label-open character (`#` or `＃`).
///
/// Whether a label-open character may serve as a bullet is left open by the
/// grammar's two readings; this library takes the reading that it may, so
/// `# [x] memo` opens an item, while `#tag [x]` does not, since only white
/// space may stand between the bullet and the checkbox.
pub open spec fn is_list_bullet(c: char) -> bool {
    c == '*' || c == '+' || c == '-' || c == '\u{2022}' || is_label_open(c)
}

/// `#` or its full-width form `＃`.
pub open spec fn is_label_open(c: char) -> bool {
    c == '#' || c == '\u{ff03}'
}

/// `:` or its full-width form `：`.
pub open spec fn is_label_splitter(c: char) -> bool {
    c == ':' || c == '\u{ff1a}'
}

/// `[` or its full-width form `［`.
pub open spec fn is_checkbox_open(c: char) -> bool {
    c == '[' || c == '\u{ff3b}'
}

/// `]` or its full-width form `］`.
pub open spec fn is_checkbox_shut(c: char) -> bool {
    c == ']' || c == '\u{ff3d}'
}

/// Tests [`is_list_bullet`].
pub fn is_list_bullet_char(c: char) -> (r: bool)
    ensures
        r == is_list_bullet(c),
{
    c == '*' || c == '+' || c == '-' || c == '\u{2022}' || c == '#' || c == '\u{ff03}'
}

/// Tests [`is_label_open`].
pub fn is_label_open_char(c: char) -> (r: bool)
    ensures
        r == is_label_open(c),
{
    c == '#' || c == '\u{ff03}'
}

/// Tests [`is_label_splitter`].
pub fn is_label_splitter_char(c: char) -> (r: bool)
    ensures
        r == is_label_splitter(c),
{
    c == ':' || c == '\u{ff1a}'
}

/// Tests [`is_checkbox_open`].
pub fn is_checkbox_open_char(c: char) -> (r: bool)
    ensures
        r == is_checkbox_open(c),
{
    c == '[' || c == '\u{ff3b}'
}

/// Tests [`is_checkbox_shut`].
pub fn is_checkbox_shut_char(c: char) -> (r: bool)
    ensures
        r == is_checkbox_shut(c),
{
    c == ']' || c == '\u{ff3d}'
}

/// Where the leading white space of a line ends.
pub open spec fn indent_end(l: Seq<char>) -> int {
    skip_space(l, 0)
}

/// Where the checkbox of a line has to start: after the leading white space,
/// an optional list bullet and more white space.
pub open spec fn checkbox_start(l: Seq<char>) -> int {
    let a = indent_end(l);
    if a < l.len() && is_list_bullet(l[a]) {
        skip_space(l, a + 1)
    } else {
        a
    }
}

/// A line opens an item when a checkbox stands where [`checkbox_start`] says:
/// an opening bracket, any one character, and a closing bracket.
pub open spec fn is_item_open(l: Seq<char>) -> bool {
    let b = checkbox_start(l);
    &&& b + 3 <= l.len()
    &&& is_checkbox_open(l[b])
    &&& is_checkbox_shut(l[b + 2])
}

/// The record that an item-opening line starts: the depth of its leading
/// white space, the character between the brackets, and the trimmed rest of
/// the line.
pub open spec fn checkbox_line(l: Seq<char>) -> Option<Record> {
    if is_item_open(l) {
        let b = checkbox_start(l);
        Some(
            Record {
                nest: nest_level(l.subrange(0, indent_end(l))),
                mark: seq![l[b + 1]],
                memo: trim(l.subrange(b + 3, l.len() as int)),
            },
        )
    } else {
        None
    }
}

/// The kinds of line.
#[derive(Debug, Clone, Copy, PartialEq, Eq, Structural)]
pub enum LineKind {
    /// White space only, or empty.
    Blank,
    /// A line with a checkbox, which starts a new item.
    ItemOpen,
    /// Any other line: more memo text for the item in progress.
    Continuation,
}

/// The kind of the line `l`.
pub open spec fn line_kind(l: Seq<char>) -> LineKind {
    if is_item_open(l) {
        LineKind::ItemOpen
    } else if is_blank(l) {
        LineKind::Blank
    } else {
        LineKind::Continuation
    }
}

proof fn lemma_skip_space_agree(s: Seq<char>, t: Seq<char>, i: int, b: int)
    requires
        0 <= i <= b < s.len(),
        s.len() == t.len(),
        forall|k: int| i <= k < b ==> s[k] == t[k],
        !is_space(s[b]),
        !is_space(t[b]),
    ensures
        skip_space(s, i) == skip_space(t, i),
        skip_space(s, i) <= b,
    decreases b - i,
{
    if i < b {
        lemma_skip_space_agree(s, t, i + 1, b);
    }
}

/// Full-width and ASCII brackets are interchangeable: writing the checkbox of
/// an item-opening line with any opening and any closing bracket (`[` or `［`,
/// `]` or `］`) leaves the line item-opening, with the same nest level, mark
/// and memo.
pub proof fn lemma_bracket_width_irrelevant(l: Seq<char>, open: char, shut: char)
    requires
        is_item_open(l),
        is_checkbox_open(open),
        is_checkbox_shut(shut),
    ensures
        checkbox_line(l.update(checkbox_start(l), open).update(checkbox_start(l) + 2, shut))
            == checkbox_line(l),
{
    let b = checkbox_start(l);
    let a = indent_end(l);
    lemma_skip_space(l, 0);
    if a < l.len() && is_list_bullet(l[a]) {
        lemma_skip_space(l, a + 1);
    }
    let w = l.update(b, open).update(b + 2, shut);
    lemma_skip_space_agree(l, w, 0, b);
    if a < l.len() && is_list_bullet(l[a]) {
        lemma_skip_space_agree(l, w, a + 1, b);
    }
    assert(checkbox_start(w) == b);
    assert(w.subrange(0, a) =~= l.subrange(0, a));
    assert(w.subrange(b + 3, w.len() as int) =~= l.subrange(b + 3, l.len() as int));
}

proof fn lemma_skip_space_suffix(s: Seq<char>, i: int, k: int)
    requires
        0 <= i <= s.len(),
        0 <= k <= s.len() - i,
    ensures
        skip_space(s, i + k) == i + skip_space(s.subrange(i, s.len() as int), k),
    decreases s.len() - i - k,
{
    let t = s.subrange(i, s.len() as int);
    if k < t.len() && is_space(t[k]) {
        assert(t[k] == s[i + k]);
        lemma_skip_space_suffix(s, i, k + 1);
    } else if k < t.len() {
        assert(t[k] == s[i + k]);
    }
}

proof fn lemma_skip_space_prefix(s: Seq<char>, n: int, k: int)
    requires
        0 <= k <= n <= s.len(),
        skip_space(s.take(n), k) < n,
    ensures
        skip_space(s, k) == skip_space(s.take(n), k),
    decreases n - k,
{
    let p = s.take(n);
    if k < n {
        assert(p[k] == s[k]);
        if is_space(p[k]) {
            lemma_skip_space_prefix(s, n, k + 1);
        }
    }
}

proof fn lemma_item_open_prefix(s: Seq<char>, n: int)
    requires
        0 <= n <= s.len(),
        is_item_open(s.take(n)),
    ensures
        is_item_open(s),
{
    let p = s.take(n);
    let a = indent_end(p);
    lemma_skip_space(p, 0);
    if a < p.len() && is_list_bullet(p[a]) {
        lemma_skip_space(p, a + 1);
    }
    let b = checkbox_start(p);
    lemma_skip_space_prefix(s, n, 0);
    if a < p.len() && is_list_bullet(p[a]) {
        assert(p[a] == s[a]);
        lemma_skip_space_prefix(s, n, a + 1);
    } else if a < p.len() {
        assert(p[a] == s[a]);
    }
    assert(p[b] == s[b]);
    assert(p[b + 2] == s[b + 2]);
}

proof fn lemma_item_open_trim_start(s: Seq<char>)
    requires
        is_item_open(trim_start(s)),
    ensures
        is_item_open(s),
{
    let i = skip_space(s, 0);
    lemma_skip_space(s, 0);
    lemma_trim_start_at(s, i);
    let t = trim_start(s);
    lemma_skip_space_suffix(s, i, 0);
    assert(skip_space(s, i) == i);
    let a = indent_end(t);
    assert(a == 0);
    if 0 < t.len() {
        assert(t[0] == s[i]);
    }
    if 0 < t.len() && is_list_bullet(t[0]) {
        lemma_skip_space_suffix(s, i, 1);
        lemma_skip_space(t, 1);
    }
    let b = checkbox_start(t);
    assert(0 <= b);
    assert(checkbox_start(s) == i + b);
    assert(t[b] == s[i + b]);
    assert(t[b + 2] == s[i + b + 2]);
}

/// Trimming never makes a line item-opening: where the trimmed line opens an
/// item, so does the line.
pub proof fn lemma_item_open_of_trim(l: Seq<char>)
    requires
        is_item_open(trim(l)),
    ensures
        is_item_open(l),
{
    let u = trim_start(l);
    lemma_trim_end_shape(u);
    lemma_item_open_prefix(u, trim_end(u).len() as int);
    lemma_item_open_trim_start(l);
}

/// The first index at or after `i` whose character is not white space.
pub fn skip_space_from(v: &Vec<char>, i: usize) -> (r: usize)
    requires
        i <= v@.len(),
    ensures
        r as int == skip_space(v@, i as int),
{
    let mut j = i;
    while j < v.len() && is_space_char(v[j])
        invariant
            i <= j <= v@.len(),
            skip_space(v@, j as int) == skip_space(v@, i as int),
        decreases v@.len() - j,
    {
        j = j + 1;
    }
    j
}

/// Where the leading white space of the line ends, and where its checkbox
/// has to start.
fn locate_checkbox(v: &Vec<char>) -> (r: (usize, usize))
    ensures
        r.0 as int == indent_end(v@),
        r.1 as int == checkbox_start(v@),
        r.0 <= r.1 <= v@.len(),
{
    proof {
        lemma_skip_space(v@, 0);
    }
    let a = skip_space_from(v, 0);
    if a < v.len() && is_list_bullet_char(v[a]) {
        proof {
            lemma_skip_space(v@, a + 1);
        }
        (a, skip_space_from(v, a + 1))
    } else {
        (a, a)
    }
}

fn opens_item(v: &Vec<char>, b: usize) -> (r: bool)
    requires
        b as int == checkbox_start(v@),
    ensures
        r == is_item_open(v@),
{
    b <= v.len() && v.len() - b >= 3 && is_checkbox_open_char(v[b]) && is_checkbox_shut_char(
        v[b + 2],
    )
}

/// Parses an item-opening line into its nest level, its mark and the first
/// line of its memo; `None` where the line holds no checkbox where one has to
/// stand.
pub fn parse_checkbox_line(line: &str) -> (r: Option<(u8, String, String)>)
    ensures
        match checkbox_line(line@) {
            Some(t) => r matches Some(p) && p.0 == t.nest && p.1@ == t.mark && p.2@ == t.memo,
            None => r is None,
        },
{
    let v = chars_of(line);
    let (a, b) = locate_checkbox(&v);
    if !opens_item(&v, b) {
        return None;
    }
    assert(b + 3 <= v@.len());
    let nest = whitespace_to_nest(line.substring_char(0, a));
    let mark = String::from_str(line.substring_char(b + 1, b + 2));
    let memo = String::from_str(trim_text(line.substring_char(b + 3, v.len())));
    proof {
        assert(line@.subrange(b + 1, b + 2) =~= seq![line@[b + 1]]);
    }
    Some((nest, mark, memo))
}

fn is_blank_chars(v: &Vec<char>) -> (r: bool)
    ensures
        r == is_blank(v@),
{
    let mut i: usize = 0;
    while i < v.len()
        invariant
            i <= v@.len(),
            forall|k: int| 0 <= k < i ==> is_space(#[trigger] v@[k]),
        decreases v@.len() - i,
    {
        if !is_space_char(v[i]) {
            return false;
        }
        i = i + 1;
    }
    true
}

/// Tells a blank line, an item-opening line and a continuation line apart.
pub fn classify_line(line: &str) -> (r: LineKind)
    ensures
        r == line_kind(line@),
{
    let v = chars_of(line);
    let (_a, b) = locate_checkbox(&v);
    if opens_item(&v, b) {
        LineKind::ItemOpen
    } else if is_blank_chars(&v) {
        LineKind::Blank
    } else {
        LineKind::Continuation
    }
}

} // verus!

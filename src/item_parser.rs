//! The item grammar as small parsers over text, each returning the rest of
//! its input with what it recognised.
use crate::item::{Item, Record};
use crate::labels::{phrase_at, phrase_here};
use crate::line::{
    checkbox_line, checkbox_start, indent_end, is_checkbox_open, is_checkbox_open_char,
    is_checkbox_shut, is_checkbox_shut_char, is_item_open, is_label_open, is_label_open_char,
    is_label_splitter, is_label_splitter_char, is_list_bullet, is_list_bullet_char, nest_level,
    skip_space_from, whitespace_to_nest,
};
use crate::load::{items_of, lemma_items_push, lemma_views_push, views_of};
use crate::text::{chars_of, lemma_skip_space, lemma_trim_start_at, skip_space, trim};
use vstd::prelude::*;
use vstd::string::{StrSliceExecFns, StringExecFns};

verus! {

/// Which part of the grammar was not found.
#[derive(Debug, Clone, Copy, PartialEq, Eq, Structural)]
pub enum ParseError {
    ListMarker,
    CheckboxOpen,
    CheckboxMark,
    CheckboxShut,
    LabelOpen,
    LabelPhrase,
    LabelSplitter,
}

/// The first character of the input, the rest, and the first character as
/// text; nothing for empty input.
fn take_first<'a>(input: &'a str) -> (r: Option<(char, &'a str, &'a str)>)
    ensures
        input@.len() == 0 ==> r is None,
        input@.len() > 0 ==> (r matches Some((c, rest, head)) && c == input@[0] && rest@
            == input@.skip(1) && head@ == input@.take(1)),
{
    let n = input.unicode_len();
    if n == 0 {
        None
    } else {
        Some((input.get_char(0), input.substring_char(1, n), input.substring_char(0, 1)))
    }
}

/// Parses an indent: the leading run of white space, which may be empty.
///
/// White space here is every character with Unicode's `White_Space` property
/// (the ideographic space U+3000 included), not only space, tab, carriage
/// return and line feed, so that it matches what the line grammar skips.
pub fn indent<'a>(input: &'a str) -> (r: Result<(&'a str, &'a str), ParseError>)
    ensures
        r matches Ok((rest, ws)) && ws@ == input@.take(skip_space(input@, 0)) && rest@
            == input@.skip(skip_space(input@, 0)),
{
    let v = chars_of(input);
    proof {
        lemma_skip_space(input@, 0);
    }
    let k = skip_space_from(&v, 0);
    Ok((input.substring_char(k, v.len()), input.substring_char(0, k)))
}

/// Parses a list marker: `*`, `+`, `-`, `•`, or a label-open character.
pub fn list_marker<'a>(input: &'a str) -> (r: Result<(&'a str, &'a str), ParseError>)
    ensures
        r is Ok <==> input@.len() > 0 && is_list_bullet(input@[0]),
        r matches Ok((rest, m)) ==> m@ == input@.take(1) && rest@ == input@.skip(1),
        r matches Err(e) ==> e == ParseError::ListMarker,
{
    match take_first(input) {
        Some((c, rest, head)) => if is_list_bullet_char(c) {
            Ok((rest, head))
        } else {
            Err(ParseError::ListMarker)
        },
        None => Err(ParseError::ListMarker),
    }
}

/// Parses a checkbox open: `[` or `［`.
pub fn checkbox_open<'a>(input: &'a str) -> (r: Result<(&'a str, &'a str), ParseError>)
    ensures
        r is Ok <==> input@.len() > 0 && is_checkbox_open(input@[0]),
        r matches Ok((rest, m)) ==> m@ == input@.take(1) && rest@ == input@.skip(1),
        r matches Err(e) ==> e == ParseError::CheckboxOpen,
{
    match take_first(input) {
        Some((c, rest, head)) => if is_checkbox_open_char(c) {
            Ok((rest, head))
        } else {
            Err(ParseError::CheckboxOpen)
        },
        None => Err(ParseError::CheckboxOpen),
    }
}

/// Parses a checkbox mark: any one character.
pub fn checkbox_mark<'a>(input: &'a str) -> (r: Result<(&'a str, &'a str), ParseError>)
    ensures
        r is Ok <==> input@.len() > 0,
        r matches Ok((rest, m)) ==> m@ == input@.take(1) && rest@ == input@.skip(1),
        r matches Err(e) ==> e == ParseError::CheckboxMark,
{
    match take_first(input) {
        Some((_c, rest, head)) => Ok((rest, head)),
        None => Err(ParseError::CheckboxMark),
    }
}

/// Parses a checkbox shut: `]` or `］`.
pub fn checkbox_shut<'a>(input: &'a str) -> (r: Result<(&'a str, &'a str), ParseError>)
    ensures
        r is Ok <==> input@.len() > 0 && is_checkbox_shut(input@[0]),
        r matches Ok((rest, m)) ==> m@ == input@.take(1) && rest@ == input@.skip(1),
        r matches Err(e) ==> e == ParseError::CheckboxShut,
{
    match take_first(input) {
        Some((c, rest, head)) => if is_checkbox_shut_char(c) {
            Ok((rest, head))
        } else {
            Err(ParseError::CheckboxShut)
        },
        None => Err(ParseError::CheckboxShut),
    }
}

/// What a checkbox at the start of `s` fails on, if it does.
pub open spec fn checkbox_error(s: Seq<char>) -> Option<ParseError> {
    if !(s.len() > 0 && is_checkbox_open(s[0])) {
        Some(ParseError::CheckboxOpen)
    } else if s.len() < 2 {
        Some(ParseError::CheckboxMark)
    } else if !(s.len() > 2 && is_checkbox_shut(s[2])) {
        Some(ParseError::CheckboxShut)
    } else {
        None
    }
}

/// Parses a checkbox: its open, its mark and its shut.
pub fn checkbox<'a>(input: &'a str) -> (r: Result<(&'a str, (&'a str, &'a str, &'a str)), ParseError>)
    ensures
        match checkbox_error(input@) {
            Some(e) => r matches Err(x) && x == e,
            None => r matches Ok((rest, (o, m, s))) && o@ == input@.subrange(0, 1) && m@
                == input@.subrange(1, 2) && s@ == input@.subrange(2, 3) && rest@ == input@.skip(3),
        },
{
    let (rest, o) = match checkbox_open(input) {
        Ok(p) => p,
        Err(e) => {
            return Err(e);
        },
    };
    let (rest, m) = match checkbox_mark(rest) {
        Ok(p) => p,
        Err(e) => {
            return Err(e);
        },
    };
    let (rest, s) = match checkbox_shut(rest) {
        Ok(p) => p,
        Err(e) => {
            return Err(e);
        },
    };
    proof {
        assert(input@.skip(1).take(1) =~= input@.subrange(1, 2));
        assert(input@.skip(1).skip(1).take(1) =~= input@.subrange(2, 3));
        assert(input@.skip(1).skip(1).skip(1) =~= input@.skip(3));
    }
    Ok((rest, (o, m, s)))
}

/// Parses a label open: `#` or `＃`.
pub fn label_open<'a>(input: &'a str) -> (r: Result<(&'a str, &'a str), ParseError>)
    ensures
        r is Ok <==> input@.len() > 0 && is_label_open(input@[0]),
        r matches Ok((rest, m)) ==> m@ == input@.take(1) && rest@ == input@.skip(1),
        r matches Err(e) ==> e == ParseError::LabelOpen,
{
    match take_first(input) {
        Some((c, rest, head)) => if is_label_open_char(c) {
            Ok((rest, head))
        } else {
            Err(ParseError::LabelOpen)
        },
        None => Err(ParseError::LabelOpen),
    }
}

/// Parses a label splitter: `:` or `：`.
pub fn label_splitter<'a>(input: &'a str) -> (r: Result<(&'a str, &'a str), ParseError>)
    ensures
        r is Ok <==> input@.len() > 0 && is_label_splitter(input@[0]),
        r matches Ok((rest, m)) ==> m@ == input@.take(1) && rest@ == input@.skip(1),
        r matches Err(e) ==> e == ParseError::LabelSplitter,
{
    match take_first(input) {
        Some((c, rest, head)) => if is_label_splitter_char(c) {
            Ok((rest, head))
        } else {
            Err(ParseError::LabelSplitter)
        },
        None => Err(ParseError::LabelSplitter),
    }
}

/// Parses a label phrase: the leading run of alphanumeric characters, which
/// may be empty.
pub fn label_phrase<'a>(input: &'a str) -> (r: Result<(&'a str, &'a str), ParseError>)
    ensures
        r matches Ok((rest, p)) && p@ == phrase_at(input@, 0) && rest@ == input@.skip(p@.len() as int),
{
    let (p, n) = phrase_here(input, 0);
    let rest = input.substring_char(n, input.unicode_len());
    Ok((rest, p))
}

/// `k` more pairs of a splitter and a non-empty phrase from index `j` on:
/// their texts and where the last ends.
pub open spec fn label_tail(s: Seq<char>, j: int, k: nat) -> Result<(Seq<Seq<char>>, int), ParseError>
    decreases k,
{
    if k == 0 {
        Ok((seq![], j))
    } else if !(0 <= j < s.len() && is_label_splitter(s[j])) {
        Err(ParseError::LabelSplitter)
    } else if phrase_at(s, j + 1).len() == 0 {
        Err(ParseError::LabelPhrase)
    } else {
        let p = phrase_at(s, j + 1);
        match label_tail(s, j + 1 + p.len(), (k - 1) as nat) {
            Ok((ps, e)) => Ok((seq![s.subrange(j, j + 1), p] + ps, e)),
            Err(x) => Err(x),
        }
    }
}

/// A label with `k + 1` phrases at the start of `s`: the label open, the
/// first phrase, then `k` pairs of a splitter and a phrase; with the index
/// where it ends. Every phrase is a non-empty alphanumeric run.
pub open spec fn label_parts(s: Seq<char>, k: nat) -> Result<(Seq<Seq<char>>, int), ParseError> {
    if !(s.len() > 0 && is_label_open(s[0])) {
        Err(ParseError::LabelOpen)
    } else if phrase_at(s, 1).len() == 0 {
        Err(ParseError::LabelPhrase)
    } else {
        let p = phrase_at(s, 1);
        match label_tail(s, 1 + p.len() as int, k) {
            Ok((ps, e)) => Ok((seq![s.subrange(0, 1), p] + ps, e)),
            Err(x) => Err(x),
        }
    }
}

/// The characters of each piece of `v`.
pub open spec fn piece_views(v: Seq<&str>) -> Seq<Seq<char>> {
    v.map_values(|p: &str| p@)
}

/// The pieces of a label with `k + 1` phrases, and the rest of the input.
fn label_pieces<'a>(input: &'a str, k: usize) -> (r: Result<(Vec<&'a str>, &'a str), ParseError>)
    requires
        k <= 2,
    ensures
        match label_parts(input@, k as nat) {
            Ok((ps, e)) => r matches Ok((parts, rest)) && piece_views(parts@) == ps && parts@.len()
                == 2 + 2 * k && rest@ == input@.skip(e),
            Err(x) => r matches Err(y) && y == x,
        },
{
    let v = chars_of(input);
    let n = v.len();
    if n == 0 || !is_label_open_char(v[0]) {
        return Err(ParseError::LabelOpen);
    }
    let mut parts: Vec<&'a str> = Vec::new();
    parts.push(input.substring_char(0, 1));
    let (p, plen) = phrase_here(input, 1);
    if plen == 0 {
        return Err(ParseError::LabelPhrase);
    }
    parts.push(p);
    let mut j = 1 + plen;
    let mut m = k;
    assert(piece_views(parts@) =~= seq![input@.subrange(0, 1), p@]);
    while m > 0
        invariant
            v@ == input@,
            n == v@.len(),
            j <= n,
            m <= k <= 2,
            parts@.len() == 2 + 2 * (k - m),
            label_parts(input@, k as nat) == match label_tail(input@, j as int, m as nat) {
                Ok((ps, e)) => Ok((piece_views(parts@) + ps, e)),
                Err(x) => Err(x),
            },
        decreases m,
    {
        if j >= n || !is_label_splitter_char(v[j]) {
            return Err(ParseError::LabelSplitter);
        }
        let ghost before = parts@;
        parts.push(input.substring_char(j, j + 1));
        let (q, qlen) = phrase_here(input, j + 1);
        if qlen == 0 {
            return Err(ParseError::LabelPhrase);
        }
        parts.push(q);
        proof {
            let sp = input@.subrange(j as int, j + 1);
            assert(piece_views(parts@) =~= piece_views(before) + seq![sp, q@]);
            let t = label_tail(input@, j + 1 + qlen, (m - 1) as nat);
            if let Ok((ps, e)) = t {
                assert(piece_views(before) + (seq![sp, q@] + ps) =~= piece_views(parts@) + ps);
            }
        }
        j = j + 1 + qlen;
        m = m - 1;
    }
    assert(piece_views(parts@) + Seq::<Seq<char>>::empty() =~= piece_views(parts@));
    Ok((parts, input.substring_char(j, n)))
}

/// Parses a label that has one phrase: `#foo`.
pub fn label1<'a>(input: &'a str) -> (r: Result<(&'a str, (&'a str, &'a str)), ParseError>)
    ensures
        match label_parts(input@, 0) {
            Ok((ps, e)) => r matches Ok((rest, (o, p))) && seq![o@, p@] == ps && rest@ == input@.skip(e),
            Err(x) => r matches Err(y) && y == x,
        },
{
    match label_pieces(input, 0) {
        Ok((parts, rest)) => {
            assert(seq![parts@[0]@, parts@[1]@] =~= piece_views(parts@));
            Ok((rest, (parts[0], parts[1])))
        },
        Err(e) => Err(e),
    }
}

/// Parses a label that has two phrases: `#foo:goo`.
pub fn label2<'a>(input: &'a str) -> (r: Result<(&'a str, (&'a str, &'a str, &'a str, &'a str)), ParseError>)
    ensures
        match label_parts(input@, 1) {
            Ok((ps, e)) => r matches Ok((rest, (o, p, s, q))) && seq![o@, p@, s@, q@] == ps && rest@
                == input@.skip(e),
            Err(x) => r matches Err(y) && y == x,
        },
{
    match label_pieces(input, 1) {
        Ok((parts, rest)) => {
            assert(seq![parts@[0]@, parts@[1]@, parts@[2]@, parts@[3]@] =~= piece_views(parts@));
            Ok((rest, (parts[0], parts[1], parts[2], parts[3])))
        },
        Err(e) => Err(e),
    }
}

/// Parses a label with three phrases: `#foo:goo:hoo`.
pub fn label3<'a>(input: &'a str) -> (r: Result<
    (&'a str, (&'a str, &'a str, &'a str, &'a str, &'a str, &'a str)),
    ParseError,
>)
    ensures
        match label_parts(input@, 2) {
            Ok((ps, e)) => r matches Ok((rest, (o, p, s, q, t, u))) && seq![o@, p@, s@, q@, t@, u@]
                == ps && rest@ == input@.skip(e),
            Err(x) => r matches Err(y) && y == x,
        },
{
    match label_pieces(input, 2) {
        Ok((parts, rest)) => {
            assert(seq![parts@[0]@, parts@[1]@, parts@[2]@, parts@[3]@, parts@[4]@, parts@[5]@]
                =~= piece_views(parts@));
            Ok((rest, (parts[0], parts[1], parts[2], parts[3], parts[4], parts[5])))
        },
        Err(e) => Err(e),
    }
}

/// The first index at or after `i` that holds a line feed or a carriage
/// return, or the length of `s` where none does.
pub open spec fn line_end(s: Seq<char>, i: int) -> int
    decreases s.len() - i,
{
    if 0 <= i < s.len() && s[i] != '\n' && s[i] != '\r' {
        line_end(s, i + 1)
    } else {
        i
    }
}

/// Where the last line that `s[i..a]` reaches into starts: just after its
/// last line feed, or at `i`.
pub open spec fn line_start(s: Seq<char>, i: int, a: int) -> int
    decreases a - i,
{
    if a <= i {
        i
    } else if s[a - 1] == '\n' {
        a
    } else {
        line_start(s, i, a - 1)
    }
}

fn line_end_from(v: &Vec<char>, i: usize) -> (r: usize)
    requires
        i <= v@.len(),
    ensures
        r as int == line_end(v@, i as int),
        i <= r <= v@.len(),
{
    let mut j = i;
    while j < v.len() && v[j] != '\n' && v[j] != '\r'
        invariant
            i <= j <= v@.len(),
            line_end(v@, j as int) == line_end(v@, i as int),
        decreases v@.len() - j,
    {
        j = j + 1;
    }
    j
}

/// Parses a memo: the text up to the end of its line, which may be empty.
///
/// The line ends at the first line feed or carriage return. A carriage return
/// that no line feed follows ends the memo too; it is not an error.
pub fn memo<'a>(input: &'a str) -> (r: Result<(&'a str, &'a str), ParseError>)
    ensures
        r matches Ok((rest, m)) && m@ == input@.take(line_end(input@, 0)) && rest@ == input@.skip(
            line_end(input@, 0),
        ),
{
    let v = chars_of(input);
    let e = line_end_from(&v, 0);
    Ok((input.substring_char(e, v.len()), input.substring_char(0, e)))
}

fn line_start_from(v: &Vec<char>, i: usize, a: usize) -> (r: usize)
    requires
        i <= a <= v@.len(),
    ensures
        r as int == line_start(v@, i as int, a as int),
        i <= r <= a,
{
    let mut j = a;
    while j > i && v[j - 1] != '\n'
        invariant
            i <= j <= a,
            a <= v@.len(),
            line_start(v@, i as int, j as int) == line_start(v@, i as int, a as int),
        decreases j,
    {
        j = j - 1;
    }
    j
}

/// The item that starts at index `i`: an indent, an optional list marker,
/// white space, a checkbox, white space, and a memo up to the end of its
/// line; the white space after it is taken too. Gives where the item ends.
///
/// The nest level comes from the indent on the item's own line. The memo is
/// the rest of the line after the white space that follows the checkbox,
/// kept as it stands (trailing white space included).
pub open spec fn item_at(s: Seq<char>, i: int) -> Result<(int, Record), ParseError> {
    let a = skip_space(s, i);
    let b = if a < s.len() && is_list_bullet(s[a]) {
        a + 1
    } else {
        a
    };
    let c = skip_space(s, b);
    if !(c < s.len() && is_checkbox_open(s[c])) {
        Err(ParseError::CheckboxOpen)
    } else if !(c + 1 < s.len()) {
        Err(ParseError::CheckboxMark)
    } else if !(c + 2 < s.len() && is_checkbox_shut(s[c + 2])) {
        Err(ParseError::CheckboxShut)
    } else {
        let d = skip_space(s, c + 3);
        let e = line_end(s, d);
        Ok(
            (
                skip_space(s, e),
                Record {
                    nest: nest_level(s.subrange(line_start(s, i, a), a)),
                    mark: seq![s[c + 1]],
                    memo: s.subrange(d, e),
                },
            ),
        )
    }
}

/// The items that follow one another from index `i` on, up to the first
/// place where none starts, and where they end.
pub open spec fn many_from(s: Seq<char>, i: int) -> (int, Seq<Record>)
    decreases s.len() - i,
{
    match item_at(s, i) {
        Ok((f, d)) => if i < f <= s.len() {
            let (g, ds) = many_from(s, f);
            (g, seq![d] + ds)
        } else {
            (i, seq![])
        },
        Err(_) => (i, seq![]),
    }
}

fn item_from(input: &str, v: &Vec<char>, i: usize) -> (r: Result<(usize, Item), ParseError>)
    requires
        v@ == input@,
        i <= v@.len(),
    ensures
        match item_at(input@, i as int) {
            Ok((f, d)) => r matches Ok((g, it)) && g == f && it@ == d.item() && i < f <= input@.len(),
            Err(x) => r matches Err(y) && y == x,
        },
{
    let n = v.len();
    proof {
        lemma_skip_space(v@, i as int);
    }
    let a = skip_space_from(v, i);
    let b = if a < n && is_list_bullet_char(v[a]) {
        a + 1
    } else {
        a
    };
    proof {
        lemma_skip_space(v@, b as int);
    }
    let c = skip_space_from(v, b);
    if !(c < n && is_checkbox_open_char(v[c])) {
        return Err(ParseError::CheckboxOpen);
    }
    if !(c + 1 < n) {
        return Err(ParseError::CheckboxMark);
    }
    if !(c + 2 < n && is_checkbox_shut_char(v[c + 2])) {
        return Err(ParseError::CheckboxShut);
    }
    proof {
        lemma_skip_space(v@, c + 3);
    }
    let d = skip_space_from(v, c + 3);
    let e = line_end_from(v, d);
    proof {
        lemma_skip_space(v@, e as int);
    }
    let f = skip_space_from(v, e);
    let ls = line_start_from(v, i, a);
    let nest = whitespace_to_nest(input.substring_char(ls, a));
    let mark = String::from_str(input.substring_char(c + 1, c + 2));
    let memo = String::from_str(input.substring_char(d, e));
    proof {
        assert(input@.subrange(c + 1, c + 2) =~= seq![input@[c + 1]]);
    }
    Ok((f, Item::task(nest, mark, memo)))
}

/// True when `s` holds no line feed and no carriage return.
pub open spec fn single_line(s: Seq<char>) -> bool {
    forall|k: int| 0 <= k < s.len() ==> #[trigger] s[k] != '\n' && s[k] != '\r'
}

proof fn lemma_single_line_start(s: Seq<char>, i: int, a: int)
    requires
        single_line(s),
        0 <= i <= a <= s.len(),
    ensures
        line_start(s, i, a) == i,
    decreases a - i,
{
    if a > i {
        lemma_single_line_start(s, i, a - 1);
    }
}

proof fn lemma_single_line_end(s: Seq<char>, a: int)
    requires
        single_line(s),
        0 <= a <= s.len(),
    ensures
        line_end(s, a) == s.len(),
    decreases s.len() - a,
{
    if a < s.len() {
        lemma_single_line_end(s, a + 1);
    }
}

/// On a single line the item parser and the line grammar agree: an item
/// parses from the start of a line without line breaks exactly when the line
/// opens an item, with the same nest level and mark, and with the memo that
/// the line grammar gives once trailing white space is trimmed from it.
pub proof fn lemma_one_agrees_with_line_grammar(l: Seq<char>)
    requires
        single_line(l),
    ensures
        item_at(l, 0) is Ok <==> is_item_open(l),
        is_item_open(l) ==> checkbox_line(l) == Some(
            Record {
                nest: item_at(l, 0)->Ok_0.1.nest,
                mark: item_at(l, 0)->Ok_0.1.mark,
                memo: trim(item_at(l, 0)->Ok_0.1.memo),
            },
        ),
{
    let a = indent_end(l);
    lemma_skip_space(l, 0);
    if a < l.len() && is_list_bullet(l[a]) {
        lemma_skip_space(l, a + 1);
    } else {
        assert(skip_space(l, a) == a);
    }
    let c = checkbox_start(l);
    if is_item_open(l) {
        lemma_skip_space(l, c + 3);
        let d = skip_space(l, c + 3);
        lemma_single_line_start(l, 0, a);
        lemma_single_line_end(l, d);
        let t = l.subrange(c + 3, l.len() as int);
        let u = l.subrange(d, l.len() as int);
        assert forall|k: int| 0 <= k < d - (c + 3) implies crate::text::is_space(#[trigger] t[k]) by {
            assert(t[k] == l[k + c + 3]);
        }
        lemma_trim_start_at(t, d - (c + 3));
        assert(t.subrange(d - (c + 3), t.len() as int) =~= u);
        lemma_trim_start_at(u, 0);
        assert(u.subrange(0, u.len() as int) =~= u);
    }
}

/// Parses one item, and the white space after it.
pub fn one<'a>(input: &'a str) -> (r: Result<(&'a str, Item), ParseError>)
    ensures
        match item_at(input@, 0) {
            Ok((f, d)) => r matches Ok((rest, it)) && rest@ == input@.skip(f) && it@ == d.item(),
            Err(x) => r matches Err(y) && y == x,
        },
{
    let v = chars_of(input);
    match item_from(input, &v, 0) {
        Ok((f, item)) => Ok((input.substring_char(f, v.len()), item)),
        Err(e) => Err(e),
    }
}

/// Parses as many items as follow one another; never fails, and stops before
/// the first place where no item starts.
pub fn many0<'a>(input: &'a str) -> (r: Result<(&'a str, Vec<Item>), ParseError>)
    ensures
        r matches Ok((rest, items)) && rest@ == input@.skip(many_from(input@, 0).0) && views_of(
            items@,
        ) == items_of(many_from(input@, 0).1),
{
    let v = chars_of(input);
    let n = v.len();
    let mut out: Vec<Item> = Vec::new();
    let ghost recs: Seq<Record> = seq![];
    let mut i: usize = 0;
    loop
        invariant
            v@ == input@,
            n == v@.len(),
            i <= n,
            views_of(out@) == items_of(recs),
            many_from(input@, 0).0 == many_from(input@, i as int).0,
            many_from(input@, 0).1 == recs + many_from(input@, i as int).1,
        ensures
            i <= n,
            views_of(out@) == items_of(recs),
            many_from(input@, 0).0 == i,
            many_from(input@, 0).1 == recs,
        decreases n - i,
    {
        match item_from(input, &v, i) {
            Ok((f, item)) => {
                let ghost d = item_at(input@, i as int)->Ok_0.1;
                let ghost before = out@;
                out.push(item);
                proof {
                    lemma_views_push(before, item);
                    lemma_items_push(recs, d);
                    let ds = many_from(input@, f as int).1;
                    assert(recs + (seq![d] + ds) =~= recs.push(d) + ds);
                    recs = recs.push(d);
                }
                i = f;
            },
            Err(_) => {
                assert(recs + Seq::<Record>::empty() =~= recs);
                break ;
            },
        }
    }
    Ok((input.substring_char(i, n), out))
}

} // verus!

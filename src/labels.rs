//! Labels: `#phrase`, `#phrase:phrase` and `#phrase:phrase:phrase` in a memo,
//! with the full-width forms `＃` and `：` accepted as well.
use crate::line::{is_label_open, is_label_open_char, is_label_splitter, is_label_splitter_char};
use crate::text::chars_of;
use vstd::prelude::*;
use vstd::string::{StrSliceExecFns, StringExecFns, StringSliceAdditionalSpecFns};
use vstd::utf8::{encode_scalar, encode_utf8};

verus! {

broadcast use vstd::slice::group_slice_axioms;

/// Whether Unicode classes `c` as alphanumeric: it has the Alphabetic
/// property, or it is a number (general category Nd, Nl or No).
pub uninterp spec fn alnum(c: char) -> bool;

/// An ASCII letter or digit.
pub open spec fn is_ascii_alnum(c: char) -> bool {
    let u = c as u32;
    (0x30 <= u <= 0x39) || (0x41 <= u <= 0x5a) || (0x61 <= u <= 0x7a)
}

/// Relies on `nom_unicode::is_alphanumeric`, which returns
/// `char::is_alphanumeric` of the character: true for the Alphabetic property
/// and the numeric categories. Among ASCII characters these are exactly the
/// letters and the digits.
#[verifier::external_body]
fn is_alnum_char(c: char) -> (r: bool)
    ensures
        r == alnum(c),
        (c as u32) < 0x80 ==> (r <==> is_ascii_alnum(c)),
{
    nom_unicode::is_alphanumeric(c)
}

/// Relies on `nom_unicode::complete::alphanumeric0`, which on a `&str` always
/// succeeds and splits the input before its first character for which
/// `char::is_alphanumeric` fails: the rest first, the run second.
#[verifier::external_body]
pub(crate) fn split_alphanumeric<'a>(s: &'a str) -> (r: (&'a str, &'a str))
    ensures
        r.1@ + r.0@ == s@,
        forall|k: int| 0 <= k < r.1@.len() ==> alnum(#[trigger] r.1@[k]),
        r.0@.len() > 0 ==> !alnum(r.0@[0]),
{
    nom_unicode::complete::alphanumeric0::<&str, nom::error::Error<&str>>(s).unwrap()
}

/// The class of each character of `s`: alphanumeric or not.
pub open spec fn alnum_flags(s: Seq<char>) -> Seq<bool> {
    Seq::new(s.len(), |i: int| alnum(s[i]))
}

/// Where the run of set flags that starts at `i` ends.
pub open spec fn run_end(f: Seq<bool>, i: int) -> int
    decreases f.len() - i,
{
    if 0 <= i < f.len() && f[i] {
        run_end(f, i + 1)
    } else {
        i
    }
}

proof fn lemma_run_end_at(f: Seq<bool>, i: int, j: int)
    requires
        0 <= i <= j <= f.len(),
        forall|k: int| i <= k < j ==> #[trigger] f[k],
        j == f.len() || !f[j],
    ensures
        run_end(f, i) == j,
    decreases j - i,
{
    if i < j {
        lemma_run_end_at(f, i + 1, j);
    }
}

/// The phrase that starts at `i` under the classes `f`: the run of
/// characters there whose flag is set.
pub open spec fn phrase_in(s: Seq<char>, f: Seq<bool>, i: int) -> Seq<char> {
    s.subrange(i, run_end(f, i))
}

/// The phrase that starts at `i`: the alphanumeric run there.
pub open spec fn phrase_at(s: Seq<char>, i: int) -> Seq<char> {
    phrase_in(s, alnum_flags(s), i)
}

/// Up to `k` more phrases from `e` on, each after a splitter, and where the
/// last of them ends.
pub open spec fn more_phrases(s: Seq<char>, f: Seq<bool>, e: int, k: nat) -> (Seq<Seq<char>>, int)
    decreases k,
{
    if k > 0 && 0 <= e < s.len() && is_label_splitter(s[e]) && phrase_in(s, f, e + 1).len() > 0 {
        let p = phrase_in(s, f, e + 1);
        let (rest, end) = more_phrases(s, f, e + 1 + p.len(), (k - 1) as nat);
        (seq![p] + rest, end)
    } else {
        (seq![], e)
    }
}

/// The label that starts at `i`, if one does: a label-open character and a
/// non-empty phrase, then up to two more phrases, each after a splitter. Gives
/// the phrases and the index just after the label.
pub open spec fn label_at(s: Seq<char>, f: Seq<bool>, i: int) -> Option<(Seq<Seq<char>>, int)> {
    if 0 <= i < s.len() && is_label_open(s[i]) && phrase_in(s, f, i + 1).len() > 0 {
        let p = phrase_in(s, f, i + 1);
        let (rest, end) = more_phrases(s, f, i + 1 + p.len(), 2);
        Some((seq![p] + rest, end))
    } else {
        None
    }
}

/// The byte offset in UTF-8 of the character index `i` of `s`.
pub open spec fn byte_offset(s: Seq<char>, i: int) -> nat {
    encode_utf8(s.take(i)).len()
}

/// A label found in a text: its phrases and its byte span there.
#[derive(Debug, PartialEq, Eq)]
pub struct LabelMatch {
    pub phrases: Vec<String>,
    pub start: usize,
    pub end: usize,
}

/// What a [`LabelMatch`] holds: phrases as character sequences, and the
/// byte span.
pub struct LabelMatchView {
    pub phrases: Seq<Seq<char>>,
    pub start: nat,
    pub end: nat,
}

impl View for LabelMatch {
    type V = LabelMatchView;

    open spec fn view(&self) -> LabelMatchView {
        LabelMatchView {
            phrases: self.phrases@.map_values(|p: String| p@),
            start: self.start as nat,
            end: self.end as nat,
        }
    }
}

/// The labels of `s` from index `i` on under the classes `f`, scanning left
/// to right; a label's text is not scanned again.
pub open spec fn labels_from(s: Seq<char>, f: Seq<bool>, i: int) -> Seq<LabelMatchView>
    decreases s.len() - i,
{
    if i < 0 || i >= s.len() {
        seq![]
    } else {
        match label_at(s, f, i) {
            Some((ph, e)) => if i < e <= s.len() {
                seq![LabelMatchView { phrases: ph, start: byte_offset(s, i), end: byte_offset(s, e) }]
                    + labels_from(s, f, e)
            } else {
                seq![]
            },
            None => labels_from(s, f, i + 1),
        }
    }
}

/// Every label of a text, in order.
pub open spec fn labels_of(s: Seq<char>) -> Seq<LabelMatchView> {
    labels_from(s, alnum_flags(s), 0)
}

/// What each of the matches `v` holds.
pub open spec fn match_views(v: Seq<LabelMatch>) -> Seq<LabelMatchView> {
    v.map_values(|m: LabelMatch| m@)
}

/// The characters of each phrase of `v`.
pub open spec fn phrase_views(v: Seq<String>) -> Seq<Seq<char>> {
    v.map_values(|p: String| p@)
}

/// UTF-8 encodes a concatenation piece by piece.
pub proof fn lemma_encode_concat(a: Seq<char>, b: Seq<char>)
    ensures
        encode_utf8(a + b) == encode_utf8(a) + encode_utf8(b),
    decreases a.len(),
{
    if a.len() == 0 {
        assert(a + b =~= b);
        assert(encode_utf8(a) + encode_utf8(b) =~= encode_utf8(b));
    } else {
        assert((a + b).drop_first() =~= a.drop_first() + b);
        lemma_encode_concat(a.drop_first(), b);
        assert(encode_utf8(a + b) =~= encode_utf8(a) + encode_utf8(b));
    }
}

proof fn lemma_offset_step(s: Seq<char>, i: int)
    requires
        0 <= i < s.len(),
    ensures
        byte_offset(s, i + 1) == byte_offset(s, i) + encode_scalar(s[i] as u32).len(),
        byte_offset(s, i + 1) <= encode_utf8(s).len(),
{
    lemma_encode_concat(s.take(i), seq![s[i]]);
    assert(s.take(i + 1) =~= s.take(i) + seq![s[i]]);
    let one = seq![s[i]];
    assert(one.drop_first() =~= Seq::<char>::empty());
    assert(encode_utf8(one.drop_first()) =~= Seq::<u8>::empty());
    assert(encode_utf8(one) == encode_scalar(one[0] as u32) + encode_utf8(one.drop_first()));
    assert(encode_utf8(one) =~= encode_scalar(s[i] as u32));
    lemma_encode_concat(s.take(i + 1), s.skip(i + 1));
    assert(s.take(i + 1) + s.skip(i + 1) =~= s);
}

/// The number of bytes that `c` takes in UTF-8.
fn utf8_width(c: char) -> (r: usize)
    ensures
        r == encode_scalar(c as u32).len(),
{
    let u = c as u32;
    if u <= 0x7f {
        1
    } else if u <= 0x7ff {
        2
    } else if u <= 0xffff {
        3
    } else {
        4
    }
}

/// Moves a byte offset from the character index `from` to `to`.
fn advance(v: &Vec<char>, from: usize, to: usize, b: usize) -> (r: usize)
    requires
        from <= to <= v@.len(),
        b == byte_offset(v@, from as int),
        encode_utf8(v@).len() <= usize::MAX,
    ensures
        r == byte_offset(v@, to as int),
{
    let mut i = from;
    let mut b = b;
    while i < to
        invariant
            from <= i <= to <= v@.len(),
            b == byte_offset(v@, i as int),
            encode_utf8(v@).len() <= usize::MAX,
        decreases to - i,
    {
        proof {
            lemma_offset_step(v@, i as int);
        }
        b = b + utf8_width(v[i]);
        i = i + 1;
    }
    b
}

/// The alphanumeric run that starts at `i`, and its length.
pub(crate) fn phrase_here<'a>(text: &'a str, i: usize) -> (r: (&'a str, usize))
    requires
        i <= text@.len(),
    ensures
        r.0@ == phrase_at(text@, i as int),
        r.1 == r.0@.len(),
        i + r.1 <= text@.len(),
{
    let n = text.unicode_len();
    let tail = text.substring_char(i, n);
    let (rest, run) = split_alphanumeric(tail);
    let k = rest.unicode_len();
    proof {
        let f = alnum_flags(text@);
        let j = i + run@.len();
        assert(tail@.len() == n - i);
        assert((run@ + rest@).len() == run@.len() + rest@.len());
        assert forall|m: int| i <= m < j implies #[trigger] f[m] by {
            assert(run@[m - i] == (run@ + rest@)[m - i]);
        }
        if j < n {
            assert(rest@[0] == (run@ + rest@)[run@.len() as int]);
        }
        lemma_run_end_at(f, i as int, j);
        assert(run@ =~= text@.subrange(i as int, j));
    }
    (run, n - i - k)
}

/// The end of the run of set flags that starts at `i`.
fn run_end_from(f: &Vec<bool>, i: usize) -> (r: usize)
    requires
        i <= f@.len(),
    ensures
        r as int == run_end(f@, i as int),
        i <= r <= f@.len(),
{
    let mut j = i;
    while j < f.len() && f[j]
        invariant
            i <= j <= f@.len(),
            run_end(f@, j as int) == run_end(f@, i as int),
        decreases f@.len() - j,
    {
        j = j + 1;
    }
    j
}

/// The label that starts at `i` under the classes `f`, if one does.
fn label_here(text: &str, v: &Vec<char>, f: &Vec<bool>, i: usize) -> (r: Option<(Vec<String>, usize)>)
    requires
        v@ == text@,
        f@.len() == v@.len(),
        i < v@.len(),
    ensures
        match label_at(text@, f@, i as int) {
            Some((ph, e)) => r matches Some(p) && phrase_views(p.0@) == ph && p.1 == e && i < e
                <= text@.len(),
            None => r is None,
        },
{
    let n = v.len();
    if !is_label_open_char(v[i]) {
        return None;
    }
    let j = run_end_from(f, i + 1);
    if j == i + 1 {
        return None;
    }
    let p = text.substring_char(i + 1, j);
    let mut phrases: Vec<String> = Vec::new();
    phrases.push(String::from_str(p));
    let mut e = j;
    let mut k: usize = 2;
    assert(phrase_views(phrases@) =~= seq![p@]);
    let mut stop = false;
    while !stop && k > 0 && e < n && is_label_splitter_char(v[e])
        invariant
            stop ==> more_phrases(text@, f@, e as int, k as nat).0.len() == 0,
            v@ == text@,
            f@.len() == v@.len(),
            n == v@.len(),
            i < e <= n,
            k <= 2,
            label_at(text@, f@, i as int) == Some(
                (
                    phrase_views(phrases@) + more_phrases(text@, f@, e as int, k as nat).0,
                    more_phrases(text@, f@, e as int, k as nat).1,
                ),
            ),
        decreases k + if stop { 0int } else { 1int },
    {
        let j = run_end_from(f, e + 1);
        if j == e + 1 {
            stop = true;
            continue;
        }
        let q = text.substring_char(e + 1, j);
        let ghost before = phrases@;
        phrases.push(String::from_str(q));
        proof {
            assert(phrase_views(phrases@) =~= phrase_views(before) + seq![q@]);
            let m = more_phrases(text@, f@, j as int, (k - 1) as nat);
            assert(phrase_views(before) + (seq![q@] + m.0) =~= phrase_views(phrases@) + m.0);
        }
        e = j;
        k = k - 1;
    }
    assert(more_phrases(text@, f@, e as int, k as nat).0 =~= Seq::<Seq<char>>::empty());
    assert(phrase_views(phrases@) + Seq::<Seq<char>>::empty() =~= phrase_views(phrases@));
    Some((phrases, e))
}

/// Finds every label in a text under given character classes (`alnum[i]`
/// tells whether the character at index `i` counts as alphanumeric), left to
/// right, with its phrases and the byte span that it takes up in the text.
pub fn extract_labels_with(text: &str, alnum: &Vec<bool>) -> (r: Vec<LabelMatch>)
    requires
        alnum@.len() == text@.len(),
    ensures
        match_views(r@) == labels_from(text@, alnum@, 0),
{
    let v = chars_of(text);
    let n = v.len();
    let total = text.as_bytes().len();
    proof {
        assert(encode_utf8(v@) == text.spec_bytes());
    }
    let mut out: Vec<LabelMatch> = Vec::new();
    let mut i: usize = 0;
    let mut b: usize = 0;
    assert(v@.take(0) =~= Seq::<char>::empty());
    while i < n
        invariant
            i <= n,
            n == v@.len(),
            v@ == text@,
            alnum@.len() == n,
            encode_utf8(v@).len() <= usize::MAX,
            b == byte_offset(v@, i as int),
            labels_from(text@, alnum@, 0) == match_views(out@) + labels_from(
                text@,
                alnum@,
                i as int,
            ),
        decreases n - i,
    {
        let ghost before = out@;
        match label_here(text, &v, alnum, i) {
            Some((phrases, e)) => {
                let end = advance(&v, i, e, b);
                let m = LabelMatch { phrases, start: b, end };
                out.push(m);
                proof {
                    assert(match_views(out@) =~= match_views(before).push(m@));
                    assert(match_views(before) + labels_from(text@, alnum@, i as int) =~= match_views(
                        out@,
                    ) + labels_from(text@, alnum@, e as int));
                }
                i = e;
                b = end;
            },
            None => {
                b = advance(&v, i, i + 1, b);
                i = i + 1;
            },
        }
    }
    assert(match_views(out@) + labels_from(text@, alnum@, i as int) =~= match_views(out@));
    out
}

/// Finds every label in a text, left to right, with its phrases and the byte
/// span that it takes up in the text; phrases are runs of characters that
/// Unicode classes as alphanumeric.
pub fn extract_labels(text: &str) -> (r: Vec<LabelMatch>)
    ensures
        match_views(r@) == labels_of(text@),
{
    let v = chars_of(text);
    let mut flags: Vec<bool> = Vec::new();
    let mut i: usize = 0;
    while i < v.len()
        invariant
            i <= v@.len(),
            v@ == text@,
            flags@ == alnum_flags(text@).take(i as int),
        decreases v@.len() - i,
    {
        let c = is_alnum_char(v[i]);
        flags.push(c);
        assert(flags@ =~= alnum_flags(text@).take(i + 1));
        i = i + 1;
    }
    assert(flags@ =~= alnum_flags(text@));
    extract_labels_with(text, &flags)
}

} // verus!

//! The item accumulator: a state machine that folds a document's lines into
//! task records.
use crate::item::{rendered, Item, ItemView, Record};
use crate::line::{
    checkbox_line, checkbox_start, classify_line, indent_end, lemma_item_open_of_trim, is_checkbox_open, is_checkbox_shut, is_item_open, line_kind,
    parse_checkbox_line, LineKind,
};
use crate::text::{
    chars_of, is_blank, is_space, is_trimmed, lacks, lemma_skip_space, lemma_trim_idempotent,
    lemma_trim_lacks,
    lemma_trim_not_blank, lemma_trimmed_fixed, trim, trim_text,
};
use vstd::prelude::*;
use vstd::string::{StrSliceExecFns, StringExecFns};

verus! {

/// The record that a continuation line extends: its memo gains a line break
/// and the trimmed line.
pub open spec fn continued(p: Record, line: Seq<char>) -> Record {
    Record { nest: p.nest, mark: p.mark, memo: p.memo + seq!['\n'] + trim(line) }
}

/// The record that a continuation line starts where no item is in progress:
/// depth 0, the mark `?`, and the trimmed line as memo.
pub open spec fn orphan(line: Seq<char>) -> Record {
    Record { nest: 0, mark: seq!['?'], memo: trim(line) }
}

/// One transition: from the record in progress (if any) and the next line,
/// the record in progress after it and the record that the line closes.
pub open spec fn step(pending: Option<Record>, line: Seq<char>) -> (Option<Record>, Option<Record>) {
    match line_kind(line) {
        LineKind::ItemOpen => (checkbox_line(line), pending),
        LineKind::Blank => (None, pending),
        LineKind::Continuation => match pending {
            Some(p) => (Some(continued(p, line)), None),
            None => (Some(orphan(line)), None),
        },
    }
}

/// `out` with the record `e` after it, if there is one.
pub open spec fn emit(out: Seq<Record>, e: Option<Record>) -> Seq<Record> {
    match e {
        Some(d) => out.push(d),
        None => out,
    }
}

/// The state after the given lines: the record in progress and the records
/// emitted so far.
pub open spec fn run(lines: Seq<Seq<char>>) -> (Option<Record>, Seq<Record>)
    decreases lines.len(),
{
    if lines.len() == 0 {
        (None, seq![])
    } else {
        let (p, out) = run(lines.drop_last());
        let (q, e) = step(p, lines.last());
        (q, emit(out, e))
    }
}

/// The records of a whole document: those emitted along the way, then the one
/// still in progress at the end.
pub open spec fn parse_records(lines: Seq<Seq<char>>) -> Seq<Record> {
    emit(run(lines).1, run(lines).0)
}

/// The items emitted for the records `rs`.
pub open spec fn items_of(rs: Seq<Record>) -> Seq<ItemView> {
    rs.map_values(|d: Record| d.item())
}

/// What the items `v` hold.
pub open spec fn views_of(v: Seq<Item>) -> Seq<ItemView> {
    v.map_values(|i: Item| i@)
}

/// The characters of each string of `v`.
pub open spec fn texts(v: Seq<String>) -> Seq<Seq<char>> {
    v.map_values(|s: String| s@)
}

pub(crate) proof fn lemma_items_push(s: Seq<Record>, d: Record)
    ensures
        items_of(s.push(d)) == items_of(s).push(d.item()),
{
    assert(items_of(s.push(d)) =~= items_of(s).push(d.item()));
}

pub(crate) proof fn lemma_views_push(s: Seq<Item>, i: Item)
    ensures
        views_of(s.push(i)) == views_of(s).push(i@),
{
    assert(views_of(s.push(i)) =~= views_of(s).push(i@));
}

/// `r` is the item for `e`, or nothing where `e` is nothing.
pub open spec fn emitted_as(r: Option<Item>, e: Option<Record>) -> bool {
    match e {
        Some(d) => r matches Some(i) && i@ == d.item(),
        None => r is None,
    }
}

/// The accumulator, fed one line at a time.
pub struct Accumulator {
    open: bool,
    nest: u8,
    mark: String,
    memo: String,
}

impl Accumulator {
    /// The record in progress, if any.
    pub closed spec fn pending(&self) -> Option<Record> {
        if self.open {
            Some(Record { nest: self.nest, mark: self.mark@, memo: self.memo@ })
        } else {
            None
        }
    }

    /// An accumulator with no record in progress.
    pub fn new() -> (r: Self)
        ensures
            r.pending() is None,
    {
        Accumulator { open: false, nest: 0, mark: String::new(), memo: String::new() }
    }

    fn take_pending(&mut self) -> (r: Option<Item>)
        ensures
            final(self).pending() is None,
            emitted_as(r, old(self).pending()),
    {
        if self.open {
            self.open = false;
            Some(Item::task(self.nest, self.mark.clone(), self.memo.clone()))
        } else {
            None
        }
    }

    /// Takes the next line; returns the record that it closes, if any.
    pub fn feed(&mut self, line: &str) -> (r: Option<Item>)
        ensures
            final(self).pending() == step(old(self).pending(), line@).0,
            emitted_as(r, step(old(self).pending(), line@).1),
    {
        match classify_line(line) {
            LineKind::ItemOpen => {
                let out = self.take_pending();
                match parse_checkbox_line(line) {
                    Some((nest, mark, memo)) => {
                        self.open = true;
                        self.nest = nest;
                        self.mark = mark;
                        self.memo = memo;
                    },
                    None => {},
                }
                out
            },
            LineKind::Blank => self.take_pending(),
            LineKind::Continuation => {
                let t = trim_text(line);
                if self.open {
                    proof {
                        reveal_strlit("\n");
                    }
                    self.memo.append("\n");
                    self.memo.append(t);
                    assert(self.memo@ =~= continued(old(self).pending()->0, line@).memo);
                } else {
                    proof {
                        reveal_strlit("?");
                    }
                    self.open = true;
                    self.nest = 0;
                    self.mark = String::from_str("?");
                    self.memo = String::from_str(t);
                    assert(self.mark@ =~= seq!['?']);
                }
                None
            },
        }
    }

    /// Ends the input: returns the record still in progress, if any.
    pub fn finish(self) -> (r: Option<Item>)
        ensures
            emitted_as(r, self.pending()),
    {
        if self.open {
            Some(Item::task(self.nest, self.mark, self.memo))
        } else {
            None
        }
    }
}

/// Parses a document, given as its lines without terminators, into its task
/// records, in input order.
pub fn parse_document(lines: &Vec<String>) -> (r: Vec<Item>)
    ensures
        views_of(r@) == items_of(parse_records(texts(lines@))),
{
    let ghost ls = texts(lines@);
    let mut acc = Accumulator::new();
    let mut out: Vec<Item> = Vec::new();
    let mut i: usize = 0;
    while i < lines.len()
        invariant
            i <= lines@.len(),
            ls == texts(lines@),
            acc.pending() == run(ls.take(i as int)).0,
            views_of(out@) == items_of(run(ls.take(i as int)).1),
        decreases lines@.len() - i,
    {
        let ghost before = out@;
        let e = acc.feed(lines[i].as_str());
        proof {
            assert(ls.take(i + 1).drop_last() =~= ls.take(i as int));
            assert(ls.take(i + 1).last() == lines@[i as int]@);
        }
        let ghost prev = run(ls.take(i as int));
        let ghost next = step(prev.0, lines@[i as int]@);
        match e {
            Some(item) => {
                out.push(item);
                proof {
                    lemma_views_push(before, item);
                    lemma_items_push(prev.1, next.1->0);
                }
            },
            None => {},
        }
        i = i + 1;
    }
    let ghost before = out@;
    let ghost fin = run(ls);
    proof {
        assert(ls.take(lines@.len() as int) =~= ls);
    }
    let last = acc.finish();
    match last {
        Some(item) => {
            out.push(item);
            proof {
                lemma_views_push(before, item);
                lemma_items_push(fin.1, fin.0->0);
            }
        },
        None => {},
    }
    out
}

/// Line `i` starts a record: it opens an item, or it is a continuation line
/// with no item in progress (the first line, or one after a blank line).
pub open spec fn starts_record(lines: Seq<Seq<char>>, i: int) -> bool {
    ||| line_kind(lines[i]) == LineKind::ItemOpen
    ||| line_kind(lines[i]) == LineKind::Continuation && (i == 0 || line_kind(lines[i - 1])
        == LineKind::Blank)
}

/// How many lines start a record.
pub open spec fn count_starts(lines: Seq<Seq<char>>) -> nat
    decreases lines.len(),
{
    if lines.len() == 0 {
        0
    } else {
        count_starts(lines.drop_last()) + if starts_record(lines, lines.len() - 1) {
            1nat
        } else {
            0nat
        }
    }
}

/// How many lines open an item.
pub open spec fn count_item_open(lines: Seq<Seq<char>>) -> nat
    decreases lines.len(),
{
    if lines.len() == 0 {
        0
    } else {
        count_item_open(lines.drop_last()) + if line_kind(lines.last()) == LineKind::ItemOpen {
            1nat
        } else {
            0nat
        }
    }
}

proof fn lemma_run_count(lines: Seq<Seq<char>>)
    ensures
        run(lines).0 is None <==> (lines.len() == 0 || line_kind(lines.last())
            == LineKind::Blank),
        run(lines).1.len() + (if run(lines).0 is Some {
            1int
        } else {
            0int
        }) == count_starts(lines),
    decreases lines.len(),
{
    if lines.len() > 0 {
        let prev = lines.drop_last();
        lemma_run_count(prev);
        if lines.len() > 1 {
            assert(lines[lines.len() - 2] == prev.last());
        }
    }
}

/// Each record comes from the line that starts it: the number of records is
/// the number of item-opening lines plus the number of continuation lines that
/// stand where no item is in progress.
pub proof fn lemma_record_count(lines: Seq<Seq<char>>)
    ensures
        parse_records(lines).len() == count_starts(lines),
{
    lemma_run_count(lines);
}

proof fn lemma_starts_are_item_lines(lines: Seq<Seq<char>>)
    requires
        forall|i: int|
            0 <= i < lines.len() && line_kind(#[trigger] lines[i]) == LineKind::Continuation ==> i
                > 0 && line_kind(lines[i - 1]) != LineKind::Blank,
    ensures
        count_starts(lines) == count_item_open(lines),
    decreases lines.len(),
{
    if lines.len() > 0 {
        let prev = lines.drop_last();
        assert forall|i: int|
            0 <= i < prev.len() && line_kind(#[trigger] prev[i])
                == LineKind::Continuation implies i > 0 && line_kind(prev[i - 1])
            != LineKind::Blank by {
            assert(prev[i] == lines[i]);
            if i > 0 {
                assert(prev[i - 1] == lines[i - 1]);
            }
        }
        lemma_starts_are_item_lines(prev);
        let j = lines.len() - 1;
        assert(lines[j] == lines.last());
    }
}

/// Where every continuation line follows an item-opening or continuation
/// line, there are exactly as many records as item-opening lines:
/// continuation and blank lines neither create nor destroy a record.
pub proof fn lemma_one_record_per_item_line(lines: Seq<Seq<char>>)
    requires
        forall|i: int|
            0 <= i < lines.len() && line_kind(#[trigger] lines[i]) == LineKind::Continuation ==> i
                > 0 && line_kind(lines[i - 1]) != LineKind::Blank,
    ensures
        parse_records(lines).len() == count_item_open(lines),
{
    lemma_record_count(lines);
    lemma_starts_are_item_lines(lines);
}

/// `rest` is a suffix of `s`.
pub open spec fn ends_with(s: Seq<char>, rest: Seq<char>) -> bool {
    rest.len() <= s.len() && s.subrange(s.len() - rest.len(), s.len() as int) == rest
}

/// The end of the input closes the record in progress: where the last line
/// is not blank, the last record is the one that the last line opened, or the
/// one whose memo the last line ended.
pub proof fn lemma_last_record_kept(lines: Seq<Seq<char>>)
    requires
        lines.len() > 0,
        line_kind(lines.last()) != LineKind::Blank,
    ensures
        parse_records(lines).len() > 0,
        line_kind(lines.last()) == LineKind::ItemOpen ==> checkbox_line(lines.last()) == Some(
            parse_records(lines).last(),
        ),
        line_kind(lines.last()) == LineKind::Continuation ==> ends_with(
            parse_records(lines).last().memo,
            trim(lines.last()),
        ),
{
    let prev = run(lines.drop_last());
    let l = lines.last();
    let t = trim(l);
    if line_kind(l) == LineKind::Continuation {
        match prev.0 {
            Some(p) => {
                let m = continued(p, l).memo;
                assert(m.subrange(m.len() - t.len(), m.len() as int) =~= t);
            },
            None => {
                assert(t.subrange(0, t.len() as int) =~= t);
            },
        }
    }
}

/// The memo lines `first` and `rest` joined by line feeds.
pub open spec fn join_lines(first: Seq<char>, rest: Seq<Seq<char>>) -> Seq<char>
    decreases rest.len(),
{
    if rest.len() == 0 {
        first
    } else {
        join_lines(first, rest.drop_last()) + seq!['\n'] + rest.last()
    }
}

/// The line `[m] first`.
pub open spec fn checkbox_text(m: char, first: Seq<char>) -> Seq<char> {
    seq!['[', m, ']', ' '] + first
}

proof fn lemma_clean_memo_run(m: char, first: Seq<char>, rest: Seq<Seq<char>>)
    requires
        is_trimmed(first),
        forall|i: int|
            0 <= i < rest.len() ==> is_trimmed(#[trigger] rest[i]) && !is_blank(rest[i])
                && !is_item_open(rest[i]),
    ensures
        run(seq![checkbox_text(m, first)] + rest) == (
            Some(Record { nest: 0, mark: seq![m], memo: join_lines(first, rest) }),
            Seq::<Record>::empty(),
        ),
    decreases rest.len(),
{
    let doc = seq![checkbox_text(m, first)] + rest;
    if rest.len() == 0 {
        let l = checkbox_text(m, first);
        assert(doc =~= seq![l]);
        assert(doc.drop_last() =~= Seq::<Seq<char>>::empty());
        assert(l[0] == '[');
        assert(crate::text::skip_space(l, 0) == 0);
        assert(crate::line::checkbox_start(l) == 0);
        assert(is_checkbox_open(l[0]));
        assert(is_checkbox_shut(l[2]));
        assert(l.subrange(0, 0) =~= Seq::<char>::empty());
        assert(crate::line::nest_depth(Seq::<char>::empty()) == 0);
        let tail = l.subrange(3, l.len() as int);
        assert(tail =~= seq![' '] + first);
        assert(tail.drop_first() =~= first);
        lemma_trimmed_fixed(first);
        assert(crate::text::trim_start(tail) == crate::text::trim_start(first));
        assert(seq![l[1]] =~= seq![m]);
        assert(crate::text::trim_start(first) == first);
        assert(trim(tail) == first);
        assert(line_kind(l) == LineKind::ItemOpen);
        assert(checkbox_line(l) == Some(Record { nest: 0, mark: seq![m], memo: first }));
        assert(run(doc.drop_last()) == (Option::<Record>::None, Seq::<Record>::empty()));
    } else {
        let prev = rest.drop_last();
        assert forall|i: int| 0 <= i < prev.len() implies is_trimmed(#[trigger] prev[i])
            && !is_blank(prev[i]) && !is_item_open(prev[i]) by {
            assert(prev[i] == rest[i]);
        }
        lemma_clean_memo_run(m, first, prev);
        assert(doc.drop_last() =~= seq![checkbox_text(m, first)] + prev);
        let l = rest.last();
        assert(l == rest[rest.len() - 1]);
        assert(doc.last() == l);
        lemma_trimmed_fixed(l);
        assert(line_kind(l) == LineKind::Continuation);
        assert(join_lines(first, rest) == join_lines(first, prev) + seq!['\n'] + l);
    }
}

/// A memo whose lines are already trimmed comes back unchanged when it is
/// written under a checkbox and parsed again: the first line after `[m] `,
/// the others as continuation lines (not blank, and not item-opening).
pub proof fn lemma_clean_memo_round_trip(m: char, first: Seq<char>, rest: Seq<Seq<char>>)
    requires
        is_trimmed(first),
        forall|i: int|
            0 <= i < rest.len() ==> is_trimmed(#[trigger] rest[i]) && !is_blank(rest[i])
                && !is_item_open(rest[i]),
    ensures
        parse_records(seq![checkbox_text(m, first)] + rest) == seq![
            Record { nest: 0, mark: seq![m], memo: join_lines(first, rest) },
        ],
{
    lemma_clean_memo_run(m, first, rest);
    let r = Record { nest: 0, mark: seq![m], memo: join_lines(first, rest) };
    assert(Seq::<Record>::empty().push(r) =~= seq![r]);
}

/// A line without the carriage return that ended it, if it had one.
pub open spec fn strip_cr(l: Seq<char>) -> Seq<char> {
    if l.len() > 0 && l.last() == '\r' {
        l.drop_last()
    } else {
        l
    }
}

/// The complete lines of `s` and the unfinished text after the last line
/// feed.
pub open spec fn split_acc(s: Seq<char>) -> (Seq<Seq<char>>, Seq<char>)
    decreases s.len(),
{
    if s.len() == 0 {
        (seq![], seq![])
    } else {
        let (done, cur) = split_acc(s.drop_last());
        if s.last() == '\n' {
            (done.push(strip_cr(cur)), seq![])
        } else {
            (done, cur.push(s.last()))
        }
    }
}

/// The lines of a text: split at each line feed, with a carriage return
/// before it dropped; text after the last line feed is a line when it is not
/// empty.
pub open spec fn lines_of(s: Seq<char>) -> Seq<Seq<char>> {
    let (done, cur) = split_acc(s);
    if cur.len() > 0 {
        done.push(cur)
    } else {
        done
    }
}

proof fn lemma_split_single(s: Seq<char>)
    requires
        lacks(s, '\n'),
    ensures
        split_acc(s) == (Seq::<Seq<char>>::empty(), s),
    decreases s.len(),
{
    if s.len() > 0 {
        assert(s.last() == s[s.len() - 1]);
        lemma_split_single(s.drop_last());
        assert(s.drop_last().push(s.last()) =~= s);
    }
}

proof fn lemma_split_append(a: Seq<char>, b: Seq<char>)
    requires
        lacks(b, '\n'),
    ensures
        split_acc(a + b) == (split_acc(a).0, split_acc(a).1 + b),
    decreases b.len(),
{
    if b.len() == 0 {
        assert(a + b =~= a);
        assert(split_acc(a).1 + b =~= split_acc(a).1);
    } else {
        assert((a + b).drop_last() =~= a + b.drop_last());
        assert(b.last() == b[b.len() - 1]);
        lemma_split_append(a, b.drop_last());
        assert((split_acc(a).1 + b.drop_last()).push(b.last()) =~= split_acc(a).1 + b);
    }
}

proof fn lemma_split_lacks(s: Seq<char>)
    ensures
        lacks(split_acc(s).1, '\n'),
        forall|i: int|
            0 <= i < split_acc(s).0.len() ==> lacks(#[trigger] split_acc(s).0[i], '\n'),
    decreases s.len(),
{
    if s.len() > 0 {
        lemma_split_lacks(s.drop_last());
    }
}

/// No line of a text holds a line feed.
pub proof fn lemma_lines_lack_breaks(s: Seq<char>)
    ensures
        forall|i: int| 0 <= i < lines_of(s).len() ==> lacks(#[trigger] lines_of(s)[i], '\n'),
{
    lemma_split_lacks(s);
}

/// What a record has to hold for its rendering to read back as itself: the
/// rendering's last line is not empty and does not end in a carriage return,
/// and its lines run to that record, at depth 0, still in progress.
pub open spec fn reads_back(p: Record) -> bool {
    let r = rendered(p.item());
    &&& split_acc(r).1.len() > 0
    &&& split_acc(r).1.last() != '\r'
    &&& run(lines_of(r)) == (
        Some(Record { nest: 0, mark: p.mark, memo: p.memo }),
        Seq::<Record>::empty(),
    )
}

proof fn lemma_fresh_reads_back(n: u8, m: char, first: Seq<char>)
    requires
        m != '\n',
        is_trimmed(first),
        lacks(first, '\n'),
    ensures
        reads_back(Record { nest: n, mark: seq![m], memo: first }),
{
    let p = Record { nest: n, mark: seq![m], memo: first };
    let r = rendered(p.item());
    assert(r =~= checkbox_text(m, first));
    assert forall|k: int| 0 <= k < r.len() implies #[trigger] r[k] != '\n' by {
        if k >= 4 {
            assert(r[k] == first[k - 4]);
        }
    }
    lemma_split_single(r);
    if first.len() > 0 {
        assert(r.last() == first.last());
    }
    assert(lines_of(r) =~= seq![r]);
    lemma_clean_memo_run(m, first, Seq::<Seq<char>>::empty());
    assert(seq![checkbox_text(m, first)] + Seq::<Seq<char>>::empty() =~= seq![r]);
}

proof fn lemma_continued_reads_back(p: Record, l: Seq<char>)
    requires
        reads_back(p),
        lacks(l, '\n'),
        line_kind(l) == LineKind::Continuation,
    ensures
        reads_back(continued(p, l)),
{
    let r = rendered(p.item());
    let t = trim(l);
    let q = continued(p, l);
    let r2 = rendered(q.item());
    assert(r2 =~= (r + seq!['\n']) + t);
    lemma_trim_lacks(l, '\n');
    lemma_trim_not_blank(l);
    lemma_trim_idempotent(l);
    assert((r + seq!['\n']).drop_last() =~= r);
    assert(split_acc(r + seq!['\n']) == (lines_of(r), Seq::<char>::empty()));
    lemma_split_append(r + seq!['\n'], t);
    assert(Seq::<char>::empty() + t =~= t);
    assert(!is_space(t.last()));
    if is_item_open(t) {
        lemma_item_open_of_trim(l);
    }
    if is_blank(t) {
        assert(is_space(t[0]));
    }
    assert(line_kind(t) == LineKind::Continuation);
    let ls = lines_of(r).push(t);
    assert(lines_of(r2) == ls);
    assert(ls.drop_last() =~= lines_of(r));
    let p0 = Record { nest: 0, mark: p.mark, memo: p.memo };
    assert(continued(p0, t).memo == q.memo);
}

proof fn lemma_run_reads_back(lines: Seq<Seq<char>>)
    requires
        forall|i: int| 0 <= i < lines.len() ==> lacks(#[trigger] lines[i], '\n'),
    ensures
        run(lines).0 matches Some(p) ==> reads_back(p),
        forall|i: int| 0 <= i < run(lines).1.len() ==> reads_back(#[trigger] run(lines).1[i]),
    decreases lines.len(),
{
    if lines.len() > 0 {
        let prev = lines.drop_last();
        assert forall|i: int| 0 <= i < prev.len() implies lacks(#[trigger] prev[i], '\n') by {
            assert(prev[i] == lines[i]);
        }
        lemma_run_reads_back(prev);
        let l = lines.last();
        assert(l == lines[lines.len() - 1]);
        let (p, out) = run(prev);
        match line_kind(l) {
            LineKind::ItemOpen => {
                lemma_skip_space(l, 0);
                lemma_skip_space(l, indent_end(l) + 1);
                let b = checkbox_start(l);
                assert(0 <= b);
                let tail = l.subrange(b + 3, l.len() as int);
                assert forall|k: int| 0 <= k < tail.len() implies #[trigger] tail[k] != '\n' by {
                    assert(tail[k] == l[k + b + 3]);
                }
                lemma_trim_lacks(tail, '\n');
                lemma_trim_idempotent(tail);
                assert(l[b + 1] != '\n');
                lemma_fresh_reads_back(checkbox_line(l)->0.nest, l[b + 1], trim(tail));
            },
            LineKind::Blank => {},
            LineKind::Continuation => match p {
                Some(pp) => {
                    lemma_continued_reads_back(pp, l);
                },
                None => {
                    lemma_trim_lacks(l, '\n');
                    lemma_trim_idempotent(l);
                    lemma_fresh_reads_back(0, '?', trim(l));
                    assert(orphan(l) == Record { nest: 0, mark: seq!['?'], memo: trim(l) });
                },
            },
        }
        let e = step(p, l).1;
        assert forall|i: int| 0 <= i < run(lines).1.len() implies reads_back(
            #[trigger] run(lines).1[i],
        ) by {
            if i < out.len() {
                assert(run(lines).1[i] == out[i]);
            }
        }
    }
}

/// A loaded record reads back as itself: rendering any record of a text as
/// `[mark] memo` and loading that rendering gives one record with the same
/// mark and memo, at depth 0, which the rendering does not show. A loaded memo
/// is already clean, so trimming it again changes nothing.
pub proof fn lemma_render_round_trip(s: Seq<char>, i: int)
    requires
        0 <= i < parse_records(lines_of(s)).len(),
    ensures
        parse_records(lines_of(rendered(parse_records(lines_of(s))[i].item()))) == seq![
            Record {
                nest: 0,
                mark: parse_records(lines_of(s))[i].mark,
                memo: parse_records(lines_of(s))[i].memo,
            },
        ],
{
    let ls = lines_of(s);
    lemma_lines_lack_breaks(s);
    lemma_run_reads_back(ls);
    let r = parse_records(ls)[i];
    if i < run(ls).1.len() {
        assert(r == run(ls).1[i]);
    }
    assert(reads_back(r));
    let p0 = Record { nest: 0, mark: r.mark, memo: r.memo };
    assert(Seq::<Record>::empty().push(p0) =~= seq![p0]);
}

/// Splits a text into its lines, without their terminators.
pub fn split_lines(s: &str) -> (r: Vec<String>)
    ensures
        texts(r@) == lines_of(s@),
{
    let v = chars_of(s);
    let n = v.len();
    let mut out: Vec<String> = Vec::new();
    let mut start: usize = 0;
    let mut i: usize = 0;
    while i < n
        invariant
            start <= i <= n,
            n == v@.len(),
            v@ == s@,
            split_acc(s@.take(i as int)) == (texts(out@), s@.subrange(start as int, i as int)),
        decreases n - i,
    {
        let ghost before = out@;
        proof {
            assert(s@.take(i + 1).drop_last() =~= s@.take(i as int));
        }
        if v[i] == '\n' {
            let end = if i > start && v[i - 1] == '\r' {
                i - 1
            } else {
                i
            };
            let line = String::from_str(s.substring_char(start, end));
            proof {
                let cur = s@.subrange(start as int, i as int);
                assert(strip_cr(cur) =~= s@.subrange(start as int, end as int));
            }
            out.push(line);
            proof {
                assert(texts(out@) =~= texts(before).push(line@));
            }
            start = i + 1;
        } else {
            proof {
                assert(s@.subrange(start as int, i + 1) =~= s@.subrange(start as int, i as int).push(
                    s@[i as int],
                ));
            }
        }
        i = i + 1;
    }
    proof {
        assert(s@.take(n as int) =~= s@);
    }
    if start < n {
        let ghost before = out@;
        let line = String::from_str(s.substring_char(start, n));
        out.push(line);
        proof {
            assert(texts(out@) =~= texts(before).push(line@));
        }
    }
    out
}

/// The error type of `std::io`, which [`load_items_via_str`] keeps in its
/// signature; nothing is relied on about its values.
#[verifier::external_type_specification]
#[verifier::external_body]
pub struct ExIoError(std::io::Error);

/// Loads the items of a checklist held in a string.
///
/// The text is split into lines as a buffered reader splits them, and the
/// lines are parsed as a document; reading from memory cannot fail, so the
/// result is always `Ok`.
pub fn load_items_via_str(s: &str) -> (r: std::io::Result<Vec<Item>>)
    ensures
        r matches Ok(v) && views_of(v@) == items_of(parse_records(lines_of(s@))),
{
    let lines = split_lines(s);
    Ok(parse_document(&lines))
}

} // verus!

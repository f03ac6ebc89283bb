//! The task record that the parser emits.
use vstd::prelude::*;
use vstd::string::StringExecFns;

verus! {

/// One task of a checklist.
///
/// A record that the document parser emits has `nest`, `mark` and `memo` set
/// and leaves both label lists unset; labels are extracted on request from the
/// memo.
#[derive(Debug, Default, PartialEq)]
pub struct Item {
    pub nest: Option<u8>,
    pub mark: Option<String>,
    pub memo: Option<String>,
    pub label1s: Option<Vec<String>>,
    pub label2s: Option<Vec<(String, String)>>,
}

/// What an [`Item`] holds, as mathematical values.
pub struct ItemView {
    pub nest: Option<u8>,
    pub mark: Option<Seq<char>>,
    pub memo: Option<Seq<char>>,
    pub label1s: Option<Seq<Seq<char>>>,
    pub label2s: Option<Seq<(Seq<char>, Seq<char>)>>,
}

/// The characters of an optional string.
pub open spec fn text_view(s: Option<String>) -> Option<Seq<char>> {
    match s {
        Some(t) => Some(t@),
        None => None,
    }
}

impl View for Item {
    type V = ItemView;

    open spec fn view(&self) -> ItemView {
        ItemView {
            nest: self.nest,
            mark: text_view(self.mark),
            memo: text_view(self.memo),
            label1s: match self.label1s {
                Some(v) => Some(v@.map_values(|s: String| s@)),
                None => None,
            },
            label2s: match self.label2s {
                Some(v) => Some(v@.map_values(|p: (String, String)| (p.0@, p.1@))),
                None => None,
            },
        }
    }
}

/// A task as the parser builds it: nesting depth, status mark and memo.
pub struct Record {
    pub nest: u8,
    pub mark: Seq<char>,
    pub memo: Seq<char>,
}

impl Record {
    /// The item that is emitted for this record.
    pub open spec fn item(self) -> ItemView {
        ItemView {
            nest: Some(self.nest),
            mark: Some(self.mark),
            memo: Some(self.memo),
            label1s: None,
            label2s: None,
        }
    }
}

/// The mark shown for an item without one.
pub open spec fn default_mark() -> Seq<char> {
    seq![' ']
}

/// The memo shown for an item without one.
pub open spec fn default_memo() -> Seq<char> {
    seq!['?']
}

/// The text of `s`, or `d` where there is none.
pub open spec fn or_default(s: Option<Seq<char>>, d: Seq<char>) -> Seq<char> {
    match s {
        Some(t) => t,
        None => d,
    }
}

/// The one-line rendering of an item: its checkbox, a space and its memo.
pub open spec fn rendered(i: ItemView) -> Seq<char> {
    seq!['['] + or_default(i.mark, default_mark()) + seq![']', ' '] + or_default(
        i.memo,
        default_memo(),
    )
}

impl Item {
    /// An emitted record with the given parts and no labels.
    pub fn task(nest: u8, mark: String, memo: String) -> (r: Item)
        ensures
            r@ == (Record { nest, mark: mark@, memo: memo@ }).item(),
    {
        Item { nest: Some(nest), mark: Some(mark), memo: Some(memo), label1s: None, label2s: None }
    }

    /// Renders the item as `[mark] memo`, with `" "` for a missing mark and
    /// `"?"` for a missing memo.
    pub fn to_string(&self) -> (r: String)
        ensures
            r@ == rendered(self@),
    {
        proof {
            reveal_strlit("[");
            reveal_strlit(" ");
            reveal_strlit("] ");
            reveal_strlit("?");
        }
        let mut r = String::from_str("[");
        match &self.mark {
            Some(m) => r.append(m.as_str()),
            None => r.append(" "),
        }
        r.append("] ");
        match &self.memo {
            Some(m) => r.append(m.as_str()),
            None => r.append("?"),
        }
        assert(r@ =~= rendered(self@));
        r
    }
}

/// Three sample items, one each to do, in progress and done.
pub fn demo_items() -> (r: Vec<Item>)
    ensures
        r@.len() == 3,
        r@[0]@ == (Record { nest: 0, mark: seq![' '], memo: seq!['f', 'o', 'o'] }).item(),
        r@[1]@ == (Record { nest: 0, mark: seq!['!'], memo: seq!['g', 'o', 'o'] }).item(),
        r@[2]@ == (Record { nest: 0, mark: seq!['x'], memo: seq!['h', 'o', 'o'] }).item(),
{
    proof {
        reveal_strlit(" ");
        reveal_strlit("!");
        reveal_strlit("x");
        reveal_strlit("foo");
        reveal_strlit("goo");
        reveal_strlit("hoo");
    }
    let mut r: Vec<Item> = Vec::new();
    r.push(Item::task(0, String::from_str(" "), String::from_str("foo")));
    r.push(Item::task(0, String::from_str("!"), String::from_str("goo")));
    r.push(Item::task(0, String::from_str("x"), String::from_str("hoo")));
    assert(seq![' '] =~= " "@);
    assert(seq!['f', 'o', 'o'] =~= "foo"@);
    assert(seq!['!'] =~= "!"@);
    assert(seq!['g', 'o', 'o'] =~= "goo"@);
    assert(seq!['x'] =~= "x"@);
    assert(seq!['h', 'o', 'o'] =~= "hoo"@);
    r
}

} // verus!

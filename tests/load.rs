use checklist::{
    classify_line, extract_labels, extract_labels_with, load_items_via_str, parse_checkbox_line, parse_document,
    split_lines, trim_text, whitespace_to_nest, Accumulator, Item, LabelMatch, LineKind,
};

fn task(nest: u8, mark: &str, memo: &str) -> Item {
    Item {
        nest: Some(nest),
        mark: Some(mark.into()),
        memo: Some(memo.into()),
        label1s: None,
        label2s: None,
    }
}

fn lines(v: &[&str]) -> Vec<String> {
    v.iter().map(|s| s.to_string()).collect()
}

#[test]
fn test_whitespace_to_nest() {
    assert_eq!(whitespace_to_nest(""), 0);
    assert_eq!(whitespace_to_nest(" "), 0);
    assert_eq!(whitespace_to_nest("  "), 0);
    assert_eq!(whitespace_to_nest("   "), 0);
    assert_eq!(whitespace_to_nest("    "), 1);
    assert_eq!(whitespace_to_nest("     "), 1);
    assert_eq!(whitespace_to_nest("      "), 1);
    assert_eq!(whitespace_to_nest("       "), 1);
    assert_eq!(whitespace_to_nest("        "), 2);
    assert_eq!(whitespace_to_nest("\t"), 1);
    assert_eq!(whitespace_to_nest("\t\t"), 2);
}

#[test]
fn test_load_items_via_str() {
    let str = "[ ] foo\n[!] goo\n[x] hoo\n";
    let actual = load_items_via_str(str).unwrap();
    let expect = vec![task(0, " ", "foo"), task(0, "!", "goo"), task(0, "x", "hoo")];
    assert_eq!(actual, expect);
}

#[test]
fn test_list_markers() {
    let str = "+ [ ] plus\n- [ ] minus\n* [ ] asterisk\n";
    let actual = load_items_via_str(str).unwrap();
    let expect = vec![task(0, " ", "plus"), task(0, " ", "minus"), task(0, " ", "asterisk")];
    assert_eq!(actual, expect);
}

#[test]
fn test_indent_with_spaces() {
    let str = "[ ] 0-space\n [ ] 1-space\n  [ ] 2-space\n   [ ] 3-space\n    [ ] 4-space\n     [ ] 5-space\n      [ ] 6-space\n       [ ] 7-space\n        [ ] 8-space\n";
    let actual = load_items_via_str(&str).unwrap();
    let expect = vec![
        task(0, " ", "0-space"),
        task(0, " ", "1-space"),
        task(0, " ", "2-space"),
        task(0, " ", "3-space"),
        task(1, " ", "4-space"),
        task(1, " ", "5-space"),
        task(1, " ", "6-space"),
        task(1, " ", "7-space"),
        task(2, " ", "8-space"),
    ];
    assert_eq!(actual, expect);
}

#[test]
fn test_indent_with_tabs() {
    let str = "[ ] 0-tab\n\t[ ] 1-tab\n\t\t[ ] 2-tab\n";
    let actual = load_items_via_str(&str).unwrap();
    let expect = vec![task(0, " ", "0-tab"), task(1, " ", "1-tab"), task(2, " ", "2-tab")];
    assert_eq!(actual, expect);
}

#[test]
fn nest_examples() {
    assert_eq!(whitespace_to_nest(""), 0);
    assert_eq!(whitespace_to_nest("    "), 1);
    assert_eq!(whitespace_to_nest("\t\t"), 2);
    assert_eq!(whitespace_to_nest("       "), 1);
    assert_eq!(whitespace_to_nest("\t     \t  "), 3);
}

#[test]
fn nest_is_held_at_the_largest_u8() {
    let wide = "\t".repeat(300);
    assert_eq!(whitespace_to_nest(&wide), 255);
    let spaces = " ".repeat(4 * 255 + 3);
    assert_eq!(whitespace_to_nest(&spaces), 255);
}

#[test]
fn full_width_and_ascii_checkboxes_agree() {
    let ascii = parse_checkbox_line("[x] foo").unwrap();
    let wide = parse_checkbox_line("\u{ff3b}x\u{ff3d} foo").unwrap();
    assert_eq!(ascii, (0, "x".to_string(), "foo".to_string()));
    assert_eq!(ascii, wide);
    let mixed = parse_checkbox_line("[x\u{ff3d} foo").unwrap();
    assert_eq!(mixed, ascii);
    let docs = load_items_via_str("\u{ff3b}x\u{ff3d} foo").unwrap();
    assert_eq!(docs, vec![task(0, "x", "foo")]);
}

#[test]
fn multi_line_memo_is_merged() {
    let items = load_items_via_str("[ ] alpha1\nalpha2\n").unwrap();
    assert_eq!(items, vec![task(0, " ", "alpha1\nalpha2")]);
}

#[test]
fn blank_line_ends_a_record() {
    let items = load_items_via_str("[ ] a\n\n[x] b\n").unwrap();
    assert_eq!(items, vec![task(0, " ", "a"), task(0, "x", "b")]);
}

#[test]
fn last_record_is_kept_without_a_trailing_blank() {
    let items = parse_document(&lines(&["[ ] a", "[x] b"]));
    assert_eq!(items, vec![task(0, " ", "a"), task(0, "x", "b")]);
    let items = parse_document(&lines(&["[ ] a", "more"]));
    assert_eq!(items, vec![task(0, " ", "a\nmore")]);
}

#[test]
fn records_match_item_lines() {
    let doc = lines(&["[ ] one", "  two  ", "", "", "- [x] three", "\t[!] four", "   ", "* [@] five", "six"]);
    let items = parse_document(&doc);
    let opening = doc.iter().filter(|l| classify_line(l) == LineKind::ItemOpen).count();
    assert_eq!(items.len(), opening);
    assert_eq!(
        items,
        vec![
            task(0, " ", "one\ntwo"),
            task(0, "x", "three"),
            task(1, "!", "four"),
            task(0, "@", "five\nsix"),
        ]
    );
}

#[test]
fn continuation_without_an_item_starts_a_record() {
    let items = parse_document(&lines(&["  stray text ", "more", "", "[x] done", "", "late"]));
    assert_eq!(
        items,
        vec![task(0, "?", "stray text\nmore"), task(0, "x", "done"), task(0, "?", "late")]
    );
}

#[test]
fn clean_memo_comes_back_unchanged() {
    let doc = lines(&["[x] first line", "second  line", "third"]);
    let items = parse_document(&doc);
    let memo = items[0].memo.clone().unwrap();
    assert_eq!(memo, "first line\nsecond  line\nthird");
    let mut again = vec![format!("[x] {}", memo.lines().next().unwrap())];
    again.extend(memo.lines().skip(1).map(|l| l.to_string()));
    assert_eq!(parse_document(&again), items);
    assert_eq!(trim_text(trim_text("  a b \t")), trim_text("  a b \t"));
    assert_eq!(trim_text("\u{3000} a b \u{a0}"), "a b");
}

#[test]
fn empty_and_blank_documents_give_no_records() {
    assert_eq!(parse_document(&lines(&[])), vec![]);
    assert_eq!(parse_document(&lines(&["", "   ", "\t"])), vec![]);
    assert_eq!(load_items_via_str("").unwrap(), vec![]);
}

#[test]
fn item_opening_line_without_memo() {
    assert_eq!(parse_document(&lines(&["[x]", "later"])), vec![task(0, "x", "\nlater")]);
}

#[test]
fn label_open_may_stand_as_a_bullet() {
    assert_eq!(
        parse_checkbox_line("  # [ ] tagged").unwrap(),
        (0, " ".to_string(), "tagged".to_string())
    );
    assert_eq!(parse_checkbox_line("\u{2022}[!]x").unwrap(), (0, "!".to_string(), "x".to_string()));
}

#[test]
fn lines_without_checkbox_are_not_items() {
    assert_eq!(parse_checkbox_line("foo [x] bar"), None);
    assert_eq!(parse_checkbox_line("[]"), None);
    assert_eq!(parse_checkbox_line("** [x] two bullets"), None);
    assert_eq!(parse_checkbox_line(""), None);
    assert_eq!(classify_line(""), LineKind::Blank);
    assert_eq!(classify_line(" \t\u{3000}"), LineKind::Blank);
    assert_eq!(classify_line("text"), LineKind::Continuation);
    assert_eq!(classify_line("    - [ ] x"), LineKind::ItemOpen);
}

#[test]
fn mark_is_any_single_character() {
    let (_, mark, memo) = parse_checkbox_line("[]] x").unwrap();
    assert_eq!((mark.as_str(), memo.as_str()), ("]", "x"));
    let (_, mark, _) = parse_checkbox_line("[\u{2713}]").unwrap();
    assert_eq!(mark, "\u{2713}");
}

#[test]
fn lines_split_as_a_reader_splits_them() {
    assert_eq!(split_lines("a\r\nb\n\nc"), vec!["a", "b", "", "c"]);
    assert_eq!(split_lines("a\n"), vec!["a"]);
    assert_eq!(split_lines("\n"), vec![""]);
    assert_eq!(split_lines("a\rb"), vec!["a\rb"]);
    assert_eq!(split_lines(""), Vec::<String>::new());
}

#[test]
fn accumulator_emits_one_record_per_closed_item() {
    let mut acc = Accumulator::new();
    assert_eq!(acc.feed("[ ] a"), None);
    assert_eq!(acc.feed("  b"), None);
    assert_eq!(acc.feed("[x] c"), Some(task(0, " ", "a\nb")));
    assert_eq!(acc.feed(""), Some(task(0, "x", "c")));
    assert_eq!(acc.feed(""), None);
    assert_eq!(acc.feed("    [!] d"), None);
    assert_eq!(acc.finish(), Some(task(1, "!", "d")));
}

#[test]
fn label_round_trip() {
    let found = extract_labels("body #priority:1");
    assert_eq!(found.len(), 1);
    assert_eq!(found[0].phrases, vec!["priority", "1"]);
    assert_eq!((found[0].start, found[0].end), (5, 16));
}

#[test]
fn labels_of_each_width() {
    let found = extract_labels("Call #personal #order:12345678 #a:b:c:d");
    let phrases: Vec<Vec<String>> = found.iter().map(|m| m.phrases.clone()).collect();
    assert_eq!(
        phrases,
        vec![
            vec!["personal".to_string()],
            vec!["order".to_string(), "12345678".to_string()],
            vec!["a".to_string(), "b".to_string(), "c".to_string()],
        ]
    );
    assert_eq!((found[2].start, found[2].end), (31, 37));
}

#[test]
fn labels_need_a_phrase() {
    assert_eq!(extract_labels(""), vec![]);
    assert_eq!(extract_labels("# nothing ## here"), vec![]);
    let found = extract_labels("#tag: x");
    assert_eq!(
        found,
        vec![LabelMatch { phrases: vec!["tag".to_string()], start: 0, end: 4 }]
    );
}

#[test]
fn label_spans_count_bytes() {
    let text = "\u{3b1} \u{ff03}\u{3b2}\u{ff1a}9 #x";
    let found = extract_labels(text);
    assert_eq!(found.len(), 2);
    assert_eq!(found[0].phrases, vec!["\u{3b2}", "9"]);
    assert_eq!((found[0].start, found[0].end), (3, 12));
    assert_eq!(&text[found[0].start..found[0].end], "\u{ff03}\u{3b2}\u{ff1a}9");
    assert_eq!(&text[found[1].start..found[1].end], "#x");
}

#[test]
fn rendered_records_load_back_unchanged() {
    let text = "  - [x]   first  \n   second\t\n\n\tstray \n[\u{2713}] \n more\r\n* [ ] [no] \n";
    let items = load_items_via_str(text).unwrap();
    assert_eq!(items.len(), 4);
    for r in &items {
        let again = load_items_via_str(&r.to_string()).unwrap();
        let expect = Item {
            nest: Some(0),
            mark: r.mark.clone(),
            memo: r.memo.clone(),
            label1s: None,
            label2s: None,
        };
        assert_eq!(again, vec![expect]);
    }
}

#[test]
fn labels_under_given_classes() {
    let text = "a #b:c d";
    let all: Vec<bool> = text.chars().map(|c| c != ' ' && c != '#' && c != ':').collect();
    let found = extract_labels_with(text, &all);
    assert_eq!(found, vec![LabelMatch { phrases: vec!["b".to_string(), "c".to_string()], start: 2, end: 6 }]);
    let none_alnum = vec![false; text.chars().count()];
    assert_eq!(extract_labels_with(text, &none_alnum), vec![]);
    assert_eq!(extract_labels(text), found);
}

#[test]
fn hash_bullet_needs_the_checkbox_next() {
    assert_eq!(classify_line("# [x] a"), LineKind::ItemOpen);
    assert_eq!(classify_line("#tag [x] a"), LineKind::Continuation);
}

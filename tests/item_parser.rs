use checklist::{
    checkbox, checkbox_mark, checkbox_open, checkbox_shut, indent, label1, label2, label3,
    label_open, label_phrase, label_splitter, list_marker, many0, memo, one, Item, ParseError,
};

#[test]
fn test_indent_with_0_spaces() {
    let input = "x";
    let (input, indent_str) = indent(input).unwrap();
    assert_eq!(input, "x");
    assert_eq!(indent_str, "");
}

#[test]
fn test_indent_with_2_spaces() {
    let input = "  x";
    let (input, indent_str) = indent(input).unwrap();
    assert_eq!(input, "x");
    assert_eq!(indent_str, "  ");
}

#[test]
fn test_list_marker() {
    let input = "*";
    let (input, list_marker_str) = list_marker(input).unwrap();
    assert_eq!(input, "");
    assert_eq!(list_marker_str, "*");
}

#[test]
fn test_list_marker_with_high_unicode() {
    let input = "\u{2022}";
    let (input, list_marker_str) = list_marker(input).unwrap();
    assert_eq!(input, "");
    assert_eq!(list_marker_str, "\u{2022}");
}

#[test]
fn test_checkbox() {
    let input = "[x]";
    let (input, (checkbox_open_str, checkbox_mark_str, checkbox_shut_str)) = checkbox(input).unwrap();
    assert_eq!(input, "");
    assert_eq!(checkbox_open_str, "[");
    assert_eq!(checkbox_mark_str, "x");
    assert_eq!(checkbox_shut_str, "]");
}

#[test]
fn test_checkbox_with_high_unicode() {
    let input = "\u{ff3b}\u{2713}\u{ff3d}";
    let (input, (checkbox_open_str, checkbox_mark_str, checkbox_shut_str)) = checkbox(input).unwrap();
    assert_eq!(input, "");
    assert_eq!(checkbox_open_str, "\u{ff3b}");
    assert_eq!(checkbox_mark_str, "\u{2713}");
    assert_eq!(checkbox_shut_str, "\u{ff3d}");
}

#[test]
fn test_checkbox_open() {
    let input = "[";
    let (input, checkbox_open_str) = checkbox_open(input).unwrap();
    assert_eq!(input, "");
    assert_eq!(checkbox_open_str, "[");
}

#[test]
fn test_checkbox_open_with_high_unicode() {
    let input = "\u{ff3b}";
    let (input, checkbox_open_str) = checkbox_open(input).unwrap();
    assert_eq!(input, "");
    assert_eq!(checkbox_open_str, "\u{ff3b}");
}

#[test]
fn test_checkbox_mark() {
    let input = "x";
    let (input, checkbox_mark_str) = checkbox_mark(input).unwrap();
    assert_eq!(input, "");
    assert_eq!(checkbox_mark_str, "x");
}

#[test]
fn test_checkbox_mark_with_high_unicode() {
    let input = "\u{2713}";
    let (input, checkbox_mark_str) = checkbox_mark(input).unwrap();
    assert_eq!(input, "");
    assert_eq!(checkbox_mark_str, "\u{2713}");
}

#[test]
fn test_checkbox_shut() {
    let input = "]";
    let (input, checkbox_shut_str) = checkbox_shut(input).unwrap();
    assert_eq!(input, "");
    assert_eq!(checkbox_shut_str, "]");
}

#[test]
fn test_checkbox_shut_with_high_unicode() {
    let input = "\u{ff3d}";
    let (input, checkbox_shut_str) = checkbox_shut(input).unwrap();
    assert_eq!(input, "");
    assert_eq!(checkbox_shut_str, "\u{ff3d}");
}

#[test]
fn test_label1() {
    let input = "#foo";
    let (input, (label_open_str, label_phrase_str)) = label1(input).unwrap();
    assert_eq!(input, "");
    assert_eq!(label_open_str, "#");
    assert_eq!(label_phrase_str, "foo");
}

#[test]
fn test_label1_with_high_unicode() {
    let input = "\u{ff03}\u{3b1}\u{3b2}";
    let (input, (label_open_str, label_phrase_str)) = label1(input).unwrap();
    assert_eq!(input, "");
    assert_eq!(label_open_str, "\u{ff03}");
    assert_eq!(label_phrase_str, "\u{3b1}\u{3b2}");
}

#[test]
fn test_label2() {
    let input = "#foo:goo";
    let (input, (label_open_str, label_phrase_0_str, label_splitter_0_str, label_phrase_1_str)) =
        label2(input).unwrap();
    assert_eq!(input, "");
    assert_eq!(label_open_str, "#");
    assert_eq!(label_phrase_0_str, "foo");
    assert_eq!(label_splitter_0_str, ":");
    assert_eq!(label_phrase_1_str, "goo");
}

#[test]
fn test_label3() {
    let input = "#foo:goo:hoo";
    let (
        input,
        (
            label_open_str,
            label_phrase_0_str,
            label_splitter_0_str,
            label_phrase_1_str,
            label_splitter_1_str,
            label_phrase_2_str,
        ),
    ) = label3(input).unwrap();
    assert_eq!(input, "");
    assert_eq!(label_open_str, "#");
    assert_eq!(label_phrase_0_str, "foo");
    assert_eq!(label_splitter_0_str, ":");
    assert_eq!(label_phrase_1_str, "goo");
    assert_eq!(label_splitter_1_str, ":");
    assert_eq!(label_phrase_2_str, "hoo");
}

#[test]
fn test_label_open() {
    let input = "#";
    let (input, label_open_str) = label_open(input).unwrap();
    assert_eq!(input, "");
    assert_eq!(label_open_str, "#");
}

#[test]
fn test_label_open_with_high_unicode() {
    let input = "\u{ff03}";
    let (input, label_open_str) = label_open(input).unwrap();
    assert_eq!(input, "");
    assert_eq!(label_open_str, "\u{ff03}");
}

#[test]
fn test_label_phrase() {
    let input = "foo";
    let (input, label_phrase_str) = label_phrase(input).unwrap();
    assert_eq!(input, "");
    assert_eq!(label_phrase_str, "foo");
}

#[test]
fn test_label_phrase_with_high_unicode() {
    let input = "\u{3b1}\u{3b2}";
    let (input, label_phrase_str) = label_phrase(input).unwrap();
    assert_eq!(input, "");
    assert_eq!(label_phrase_str, "\u{3b1}\u{3b2}");
}

#[test]
fn test_label_splitter() {
    let input = ":";
    let (input, label_splitter_str) = label_splitter(input).unwrap();
    assert_eq!(input, "");
    assert_eq!(label_splitter_str, ":");
}

#[test]
fn test_label_splitter_with_high_unicode() {
    let input = "\u{ff1a}";
    let (input, label_splitter_str) = label_splitter(input).unwrap();
    assert_eq!(input, "");
    assert_eq!(label_splitter_str, "\u{ff1a}");
}

#[test]
fn test_memo() {
    let input = "foo";
    let actual = memo(input);
    let expect = Ok(("", "foo"));
    assert_eq!(actual, expect);
}

#[test]
fn test_one() {
    let input = "[x] foo\n";
    let expect_item = Item {
        nest: Some(0),
        mark: Some("x".into()),
        memo: Some("foo".into()),
        label1s: None,
        label2s: None,
    };
    let actual = one(input);
    let expect = Ok(("", expect_item));
    assert_eq!(actual, expect);
}

#[test]
fn test_one_with_list_marker() {
    let input = "* [x] foo\n";
    let expect_item = Item {
        nest: Some(0),
        mark: Some("x".into()),
        memo: Some("foo".into()),
        label1s: None,
        label2s: None,
    };
    let actual = one(input);
    let expect = Ok(("", expect_item));
    assert_eq!(actual, expect);
}

#[test]
fn test_many0() {
    let input = "[ ] foo\n\n[!] goo\n\n[x] hoo\n";
    let expect_items = vec![
        Item {
            nest: Some(0),
            mark: Some(" ".into()),
            memo: Some("foo".into()),
            label1s: None,
            label2s: None,
        },
        Item {
            nest: Some(0),
            mark: Some("!".into()),
            memo: Some("goo".into()),
            label1s: None,
            label2s: None,
        },
        Item {
            nest: Some(0),
            mark: Some("x".into()),
            memo: Some("hoo".into()),
            label1s: None,
            label2s: None,
        },
    ];
    let actual = many0(input);
    let expect = Ok(("", expect_items));
    assert_eq!(actual, expect);
}

#[test]
fn memo_stops_at_the_line_end() {
    assert_eq!(memo("foo\r\nbar"), Ok(("\r\nbar", "foo")));
    assert_eq!(memo("\nbar"), Ok(("\nbar", "")));
}

#[test]
fn indent_takes_unicode_white_space() {
    assert_eq!(indent("\u{3000}\t x"), Ok(("x", "\u{3000}\t ")));
}

#[test]
fn label_phrase_stops_at_the_first_other_character() {
    assert_eq!(label_phrase("foo bar"), Ok((" bar", "foo")));
    assert_eq!(label_phrase("1-800"), Ok(("-800", "1")));
    assert_eq!(label_phrase(":x"), Ok((":x", "")));
}

#[test]
fn grammar_errors_name_the_missing_part() {
    assert_eq!(list_marker("x"), Err(ParseError::ListMarker));
    assert_eq!(checkbox_open("x]"), Err(ParseError::CheckboxOpen));
    assert_eq!(checkbox_mark(""), Err(ParseError::CheckboxMark));
    assert_eq!(checkbox_shut("x"), Err(ParseError::CheckboxShut));
    assert_eq!(checkbox("("), Err(ParseError::CheckboxOpen));
    assert_eq!(checkbox("["), Err(ParseError::CheckboxMark));
    assert_eq!(checkbox("[x"), Err(ParseError::CheckboxShut));
    assert_eq!(checkbox("[x)"), Err(ParseError::CheckboxShut));
    assert_eq!(label_open("foo"), Err(ParseError::LabelOpen));
    assert_eq!(label_splitter("-"), Err(ParseError::LabelSplitter));
    assert_eq!(label1("foo"), Err(ParseError::LabelOpen));
    assert_eq!(label2("#foo goo"), Err(ParseError::LabelSplitter));
    assert_eq!(label3("#foo:goo"), Err(ParseError::LabelSplitter));
    assert_eq!(one("foo"), Err(ParseError::CheckboxOpen));
    assert_eq!(one("* x"), Err(ParseError::CheckboxOpen));
}

#[test]
fn labels_need_non_empty_phrases() {
    assert_eq!(label1("#"), Err(ParseError::LabelPhrase));
    assert_eq!(label1("# foo"), Err(ParseError::LabelPhrase));
    assert_eq!(label2("#a:"), Err(ParseError::LabelPhrase));
    assert_eq!(label2("#a: b"), Err(ParseError::LabelPhrase));
    assert_eq!(label3("#a:b:"), Err(ParseError::LabelPhrase));
    assert_eq!(label1("#a:"), Ok((":", ("#", "a"))));
}

#[test]
fn label_with_full_width_splitter_and_rest() {
    let (rest, parts) = label2("\u{ff03}a\u{ff1a}b c").unwrap();
    assert_eq!(rest, " c");
    assert_eq!(parts, ("\u{ff03}", "a", "\u{ff1a}", "b"));
}

#[test]
fn one_reads_nesting_from_its_own_line() {
    let (rest, item) = one("\n    - [!] deep  \n[x] next").unwrap();
    assert_eq!(rest, "[x] next");
    assert_eq!(item.nest, Some(1));
    assert_eq!(item.mark.as_deref(), Some("!"));
    assert_eq!(item.memo.as_deref(), Some("deep  "));
}

#[test]
fn one_keeps_the_memo_as_written() {
    let (rest, item) = one("[x] a ").unwrap();
    assert_eq!(rest, "");
    assert_eq!(item.memo.as_deref(), Some("a "));
    let (_, item) = one("- \u{ff3b}x\u{ff3d}   two  words\t").unwrap();
    assert_eq!(item.mark.as_deref(), Some("x"));
    assert_eq!(item.memo.as_deref(), Some("two  words\t"));
}

#[test]
fn many0_stops_before_text_that_is_no_item() {
    let (rest, items) = many0("[x] a\nplain\n[ ] b").unwrap();
    assert_eq!(rest, "plain\n[ ] b");
    assert_eq!(items.len(), 1);
    assert_eq!(many0("").unwrap(), ("", vec![]));
}

use checklist::{demo_items, Item};

#[test]
fn test_fmt_with_default_attributes() {
    let item: Item = Item {
        nest: None,
        mark: None,
        memo: None,
        label1s: None,
        label2s: None,
    };
    let actual: String = item.to_string();
    let expect: String = "[ ] ?".to_string();
    assert_eq!(actual, expect)
}

#[test]
fn test_fmt_with_custom_attributes() {
    let item: Item = Item {
        nest: Some(0),
        mark: Some("x".into()),
        memo: Some("foo".into()),
        label1s: None,
        label2s: None,
    };
    let actual: String = item.to_string();
    let expect: String = "[x] foo".to_string();
    assert_eq!(actual, expect)
}

#[test]
fn fmt_keeps_a_multi_line_memo() {
    let item = Item {
        nest: Some(2),
        mark: Some("@".into()),
        memo: Some("a\nb".into()),
        label1s: None,
        label2s: None,
    };
    assert_eq!(item.to_string(), "[@] a\nb");
}

#[test]
fn demo_items_are_three_tasks() {
    let items = demo_items();
    let shown: Vec<String> = items.iter().map(|i| i.to_string()).collect();
    assert_eq!(shown, vec!["[ ] foo", "[!] goo", "[x] hoo"]);
    assert!(items.iter().all(|i| i.nest == Some(0) && i.label1s.is_none() && i.label2s.is_none()));
}

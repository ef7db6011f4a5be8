use rum::highlighting::Type;
use rum::Row;
use rum::SearchDirection;

fn chars(s: &str) -> Vec<char> {
    s.chars().collect()
}

#[test]
fn from_str_counts_graphemes_not_chars() {
    // "e" followed by a combining acute accent is one user-perceived
    // character but two code points.
    let row = Row::from_str("e\u{301}b");
    assert_eq!(row.len(), 2);
    assert_eq!(row.text_chars(), chars("e\u{301}b"));
}

#[test]
fn insert_then_delete_is_identity() {
    let mut row = Row::from_str("abc");
    row.insert(1, 'x');
    assert_eq!(row.text_chars(), chars("axbc"));
    assert_eq!(row.len(), 4);
    row.delete(1);
    assert_eq!(row.text_chars(), chars("abc"));
    assert_eq!(row.len(), 3);
}

#[test]
fn insert_at_or_past_end_appends() {
    let mut row = Row::from_str("ab");
    row.insert(2, 'c');
    assert_eq!(row.text_chars(), chars("abc"));
    let mut row = Row::from_str("ab");
    row.insert(99, 'c');
    assert_eq!(row.text_chars(), chars("abc"));
}

#[test]
fn delete_past_end_is_noop() {
    let mut row = Row::from_str("ab");
    row.delete(2);
    assert_eq!(row.text_chars(), chars("ab"));
    row.delete(99);
    assert_eq!(row.text_chars(), chars("ab"));
}

#[test]
fn insert_into_combining_text_addresses_columns() {
    let mut row = Row::from_str("e\u{301}b");
    row.insert(1, 'x');
    assert_eq!(row.text_chars(), chars("e\u{301}xb"));
    assert_eq!(row.len(), 3);
}

#[test]
fn split_then_append_restores_text() {
    let mut row = Row::from_str("hello world");
    let tail = row.split(5);
    assert_eq!(row.text_chars(), chars("hello"));
    assert_eq!(tail.text_chars(), chars(" world"));
    row.append(&tail);
    assert_eq!(row.text_chars(), chars("hello world"));
    assert_eq!(row.len(), 11);
}

#[test]
fn split_past_end_gives_empty_tail() {
    let mut row = Row::from_str("abc");
    let tail = row.split(10);
    assert_eq!(row.text_chars(), chars("abc"));
    assert!(tail.is_empty());
}

#[test]
fn find_forward_first_match() {
    let row = Row::from_str("abcabc");
    assert_eq!(row.find("b", 0, SearchDirection::Forward), Some(1));
    assert_eq!(row.find("b", 2, SearchDirection::Forward), Some(4));
    assert_eq!(row.find("bc", 0, SearchDirection::Forward), Some(1));
    assert_eq!(row.find("zz", 0, SearchDirection::Forward), None);
}

#[test]
fn find_backward_last_match_before() {
    let row = Row::from_str("abcabc");
    assert_eq!(row.find("b", 6, SearchDirection::Backward), Some(4));
    assert_eq!(row.find("b", 4, SearchDirection::Backward), Some(1));
    assert_eq!(row.find("b", 1, SearchDirection::Backward), None);
}

#[test]
fn find_rejects_empty_query_and_out_of_range_start() {
    let row = Row::from_str("abc");
    assert_eq!(row.find("", 0, SearchDirection::Forward), None);
    assert_eq!(row.find("a", 4, SearchDirection::Forward), None);
    assert_eq!(row.find("a", 4, SearchDirection::Backward), None);
}

#[test]
fn find_forward_and_backward_agree_on_unique_match() {
    let row = Row::from_str("xyz");
    let fwd = row.find("y", 0, SearchDirection::Forward);
    let bwd = row.find("y", row.len(), SearchDirection::Backward);
    assert_eq!(fwd, Some(1));
    assert_eq!(bwd, Some(1));
}

#[test]
fn index_first_char_skips_leading_spaces() {
    assert_eq!(Row::from_str("  a").index_first_char(), 2);
    assert_eq!(Row::from_str("a").index_first_char(), 0);
    assert_eq!(Row::from_str("").index_first_char(), 0);
    assert_eq!(Row::from_str("   ").index_first_char(), 0);
}

#[test]
fn render_clamps_window_and_pads_tags() {
    let row = Row::from_str("abc");
    let (cs, tags) = row.render(1, 99);
    assert_eq!(cs, chars("bc"));
    assert_eq!(tags, vec![Type::Plain, Type::Plain]);
    let (cs, tags) = row.render(5, 2);
    assert_eq!(cs, chars(""));
    assert_eq!(tags.len(), 0);
}

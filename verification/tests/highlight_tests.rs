use rum::highlighting::Type;
use rum::HighlightingOptions;
use rum::Row;

fn rust_like_options() -> HighlightingOptions {
    HighlightingOptions {
        numbers: true,
        strings: true,
        characters: true,
        comments: true,
        multiline_comments: true,
        primary_keywords: vec![String::from("if"), String::from("else")],
        secondary_keywords: vec![String::from("bool"), String::from("char")],
    }
}

fn tags_of(row: &Row) -> Vec<Type> {
    let (_, tags) = row.render(0, usize::MAX);
    tags
}

#[test]
fn keyword_needs_trailing_separator() {
    let opts = rust_like_options();
    let mut row = Row::from_str("ifCondition");
    row.highlight(&opts, &None, false);
    let tags = tags_of(&row);
    assert!(!tags.contains(&Type::PrimaryKeywords));
}

#[test]
fn keyword_with_separators_is_tagged() {
    let opts = rust_like_options();
    let mut row = Row::from_str("if (x)");
    row.highlight(&opts, &None, false);
    let tags = tags_of(&row);
    assert_eq!(tags[0], Type::PrimaryKeywords);
    assert_eq!(tags[1], Type::PrimaryKeywords);
    assert_eq!(tags[2], Type::Plain);
}

#[test]
fn keyword_needs_leading_separator() {
    let opts = rust_like_options();
    let mut row = Row::from_str("xif y");
    row.highlight(&opts, &None, false);
    let tags = tags_of(&row);
    assert!(!tags.contains(&Type::PrimaryKeywords));
}

#[test]
fn secondary_keyword_is_tagged() {
    let opts = rust_like_options();
    let mut row = Row::from_str("x: bool");
    row.highlight(&opts, &None, false);
    let tags = tags_of(&row);
    assert_eq!(tags[3], Type::SecondaryKeywords);
    assert_eq!(tags[6], Type::SecondaryKeywords);
}

#[test]
fn number_needs_separator_before() {
    let opts = rust_like_options();
    let mut row = Row::from_str("x1");
    row.highlight(&opts, &None, false);
    let tags = tags_of(&row);
    assert!(!tags.contains(&Type::Number));
}

#[test]
fn number_after_separator_is_tagged() {
    let opts = rust_like_options();
    let mut row = Row::from_str("x = 1");
    row.highlight(&opts, &None, false);
    let tags = tags_of(&row);
    assert_eq!(tags[4], Type::Number);
    assert_eq!(tags[0], Type::Plain);
}

#[test]
fn number_run_includes_digits_and_dots() {
    let opts = rust_like_options();
    let mut row = Row::from_str("a 1.25 b");
    row.highlight(&opts, &None, false);
    let tags = tags_of(&row);
    for p in 2..6 {
        assert_eq!(tags[p], Type::Number);
    }
    assert_eq!(tags[6], Type::Plain);
}

#[test]
fn string_literal_runs_to_closing_quote() {
    let opts = rust_like_options();
    let mut row = Row::from_str("x \"ab\" y");
    row.highlight(&opts, &None, false);
    let tags = tags_of(&row);
    assert_eq!(tags[0], Type::Plain);
    for p in 2..6 {
        assert_eq!(tags[p], Type::Str);
    }
    assert_eq!(tags[6], Type::Plain);
}

#[test]
fn unclosed_string_runs_to_end_of_row() {
    let opts = rust_like_options();
    let mut row = Row::from_str("a \"bc");
    row.highlight(&opts, &None, false);
    let tags = tags_of(&row);
    for p in 2..5 {
        assert_eq!(tags[p], Type::Str);
    }
}

#[test]
fn character_literal_exact_shapes() {
    let opts = rust_like_options();
    let mut row = Row::from_str("'a' '\\n' 'long'");
    row.highlight(&opts, &None, false);
    let tags = tags_of(&row);
    for p in 0..3 {
        assert_eq!(tags[p], Type::Character);
    }
    for p in 4..8 {
        assert_eq!(tags[p], Type::Character);
    }
    // 'long' has neither a 2- nor a 3-character body: not a literal.
    assert_eq!(tags[9], Type::Plain);
}

#[test]
fn line_comment_runs_to_end_of_row() {
    let opts = rust_like_options();
    let mut row = Row::from_str("x // rest");
    row.highlight(&opts, &None, false);
    let tags = tags_of(&row);
    assert_eq!(tags[0], Type::Plain);
    for p in 2..9 {
        assert_eq!(tags[p], Type::Comment);
    }
}

#[test]
fn closed_block_comment_within_row() {
    let opts = rust_like_options();
    let mut row = Row::from_str("a /* b */ c");
    let open = row.highlight(&opts, &None, false);
    assert!(!open);
    let tags = tags_of(&row);
    assert_eq!(tags[0], Type::Plain);
    for p in 2..9 {
        assert_eq!(tags[p], Type::MultilineComment);
    }
    assert_eq!(tags[10], Type::Plain);
}

#[test]
fn unclosed_block_comment_reports_open() {
    let opts = rust_like_options();
    let mut row = Row::from_str("a /* b");
    let open = row.highlight(&opts, &None, false);
    assert!(open);
    let tags = tags_of(&row);
    for p in 2..6 {
        assert_eq!(tags[p], Type::MultilineComment);
    }
}

#[test]
fn continuation_row_closes_comment() {
    let opts = rust_like_options();
    let mut row = Row::from_str("end */ 1");
    let open = row.highlight(&opts, &None, true);
    assert!(!open);
    let tags = tags_of(&row);
    for p in 0..6 {
        assert_eq!(tags[p], Type::MultilineComment);
    }
    assert_eq!(tags[7], Type::Number);
}

#[test]
fn continuation_row_without_closer_stays_open() {
    let opts = rust_like_options();
    let mut row = Row::from_str("middle");
    let open = row.highlight(&opts, &None, true);
    assert!(open);
    let tags = tags_of(&row);
    for p in 0..6 {
        assert_eq!(tags[p], Type::MultilineComment);
    }
}

#[test]
fn disabled_classes_leave_text_plain() {
    let opts = HighlightingOptions::default();
    let mut row = Row::from_str("1 \"s\" // c");
    let open = row.highlight(&opts, &None, false);
    assert!(!open);
    let tags = tags_of(&row);
    for tag in tags {
        assert_eq!(tag, Type::Plain);
    }
}

#[test]
fn highlight_twice_gives_same_tags_and_state() {
    let opts = rust_like_options();
    let mut row = Row::from_str("if x { /* open");
    let open1 = row.highlight(&opts, &None, false);
    let tags1 = tags_of(&row);
    let open2 = row.highlight(&opts, &None, false);
    let tags2 = tags_of(&row);
    assert_eq!(open1, open2);
    assert_eq!(tags1, tags2);

    let mut closed = Row::from_str("if x { }");
    let open1 = closed.highlight(&opts, &None, false);
    let tags1 = tags_of(&closed);
    let open2 = closed.highlight(&opts, &None, false);
    let tags2 = tags_of(&closed);
    assert_eq!(open1, open2);
    assert_eq!(tags1, tags2);
}

#[test]
fn full_pass_marks_cache_current_even_when_open() {
    let opts = rust_like_options();
    let mut row = Row::from_str("a /* open");
    let open = row.highlight(&opts, &None, false);
    assert!(open);
    assert!(row.is_highlighted);
    // The cached tags still report the open comment.
    assert!(row.highlight(&opts, &None, false));
}

#[test]
fn edits_mark_cached_tags_stale() {
    let opts = rust_like_options();
    let mut row = Row::from_str("ab");
    row.highlight(&opts, &None, false);
    assert!(row.is_highlighted);
    row.insert(1, 'x');
    assert!(!row.is_highlighted);
    row.highlight(&opts, &None, false);
    assert!(row.is_highlighted);
    row.delete(0);
    assert!(!row.is_highlighted);
    row.highlight(&opts, &None, false);
    let other = Row::from_str("cd");
    row.append(&other);
    assert!(!row.is_highlighted);
}

#[test]
fn search_word_overlays_match_tags() {
    let opts = rust_like_options();
    let mut row = Row::from_str("if abab");
    row.highlight(&opts, &Some(String::from("ab")), false);
    let tags = tags_of(&row);
    assert_eq!(tags[0], Type::PrimaryKeywords);
    for p in 3..7 {
        assert_eq!(tags[p], Type::Match);
    }
}

#[test]
fn search_matches_do_not_overlap() {
    let opts = HighlightingOptions::default();
    let mut row = Row::from_str("aaa");
    row.highlight(&opts, &Some(String::from("aa")), false);
    let tags = tags_of(&row);
    assert_eq!(tags[0], Type::Match);
    assert_eq!(tags[1], Type::Match);
    assert_eq!(tags[2], Type::Plain);
}

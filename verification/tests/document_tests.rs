use rum::highlighting::Type;
use rum::Document;
use rum::FileType;
use rum::HighlightingOptions;
use rum::Pos;
use rum::SearchDirection;

fn chars(s: &str) -> Vec<char> {
    s.chars().collect()
}

fn doc(content: &str) -> Document {
    Document::from_text(content, None, FileType::default())
}

fn row_chars(d: &Document, y: usize) -> Vec<char> {
    d.row(y).unwrap().text_chars()
}

fn comment_filetype() -> FileType {
    let opts = HighlightingOptions {
        numbers: false,
        strings: false,
        characters: false,
        comments: true,
        multiline_comments: true,
        primary_keywords: Vec::new(),
        secondary_keywords: Vec::new(),
    };
    FileType::new(String::from("Rust"), opts)
}

#[test]
fn from_text_splits_lines_without_trailing_empty_row() {
    let d = doc("abc\ndef\n");
    assert_eq!(d.len(), 2);
    assert_eq!(row_chars(&d, 0), chars("abc"));
    assert_eq!(row_chars(&d, 1), chars("def"));
    assert!(!d.is_dirty());
}

#[test]
fn from_text_handles_crlf_and_inner_empty_lines() {
    let d = doc("a\r\n\r\nb");
    assert_eq!(d.len(), 3);
    assert_eq!(row_chars(&d, 0), chars("a"));
    assert_eq!(row_chars(&d, 1), chars(""));
    assert_eq!(row_chars(&d, 2), chars("b"));
}

#[test]
fn newline_split_and_merge_reverse_each_other() {
    let mut d = doc("abc\ndef");
    d.insert(&Pos { x: 3, y: 0 }, '\n');
    assert_eq!(d.len(), 3);
    assert_eq!(row_chars(&d, 0), chars("abc"));
    assert_eq!(row_chars(&d, 1), chars(""));
    assert_eq!(row_chars(&d, 2), chars("def"));
    d.delete(&Pos { x: 0, y: 1 });
    assert_eq!(d.len(), 2);
    assert_eq!(row_chars(&d, 0), chars("abc"));
    assert_eq!(row_chars(&d, 1), chars("def"));
}

#[test]
fn newline_mid_row_splits_it() {
    let mut d = doc("abcd");
    d.insert(&Pos { x: 2, y: 0 }, '\n');
    assert_eq!(d.len(), 2);
    assert_eq!(row_chars(&d, 0), chars("ab"));
    assert_eq!(row_chars(&d, 1), chars("cd"));
}

#[test]
fn insert_char_and_new_last_row() {
    let mut d = doc("ab");
    d.insert(&Pos { x: 1, y: 0 }, 'x');
    assert_eq!(row_chars(&d, 0), chars("axb"));
    d.insert(&Pos { x: 0, y: 1 }, 'z');
    assert_eq!(d.len(), 2);
    assert_eq!(row_chars(&d, 1), chars("z"));
    assert!(d.is_dirty());
}

#[test]
fn insert_past_last_row_is_noop() {
    let mut d = doc("ab");
    d.insert(&Pos { x: 0, y: 5 }, 'x');
    assert_eq!(d.len(), 1);
    assert_eq!(row_chars(&d, 0), chars("ab"));
    assert!(!d.is_dirty());
}

#[test]
fn delete_mid_row_and_merge_at_row_end() {
    let mut d = doc("abc\ndef");
    d.delete(&Pos { x: 1, y: 0 });
    assert_eq!(row_chars(&d, 0), chars("ac"));
    d.delete(&Pos { x: 2, y: 0 });
    assert_eq!(d.len(), 1);
    assert_eq!(row_chars(&d, 0), chars("acdef"));
}

#[test]
fn delete_past_last_row_is_noop() {
    let mut d = doc("ab");
    d.delete(&Pos { x: 0, y: 1 });
    assert_eq!(d.len(), 1);
    assert!(!d.is_dirty());
}

#[test]
fn block_comment_state_propagates_across_rows() {
    let mut d = Document::from_text("/* start\nmiddle\nend */ code", None, comment_filetype());
    d.highlight(&None, None);
    let (_, tags0) = d.row(0).unwrap().render(0, usize::MAX);
    let (_, tags1) = d.row(1).unwrap().render(0, usize::MAX);
    let (_, tags2) = d.row(2).unwrap().render(0, usize::MAX);
    for tag in tags0 {
        assert_eq!(tag, Type::MultilineComment);
    }
    assert_eq!(tags1.len(), 6);
    for tag in tags1 {
        assert_eq!(tag, Type::MultilineComment);
    }
    for p in 0..6 {
        assert_eq!(tags2[p], Type::MultilineComment);
    }
    for p in 6..11 {
        assert_eq!(tags2[p], Type::Plain);
    }
}

#[test]
fn editing_reopens_downstream_highlighting() {
    let mut d = Document::from_text("/* a */\nx", None, comment_filetype());
    d.highlight(&None, None);
    // Remove the closer's '/' so the comment now spans both rows.
    d.delete(&Pos { x: 6, y: 0 });
    d.highlight(&None, None);
    let (_, tags1) = d.row(1).unwrap().render(0, usize::MAX);
    assert_eq!(tags1, vec![Type::MultilineComment]);
}

#[test]
fn insert_newline_at_end_adds_empty_row_after() {
    let mut d = doc("a\nb");
    d.insert_newline_at_end(0);
    assert_eq!(d.len(), 3);
    assert_eq!(row_chars(&d, 0), chars("a"));
    assert_eq!(row_chars(&d, 1), chars(""));
    assert_eq!(row_chars(&d, 2), chars("b"));
    // At the row count the empty row is appended.
    d.insert_newline_at_end(3);
    assert_eq!(d.len(), 4);
    assert_eq!(row_chars(&d, 3), chars(""));
    // Past that: nothing happens.
    d.insert_newline_at_end(7);
    assert_eq!(d.len(), 4);
}

#[test]
fn insert_newline_splits_or_appends() {
    let mut d = doc("abcd");
    d.insert_newline(&Pos { x: 1, y: 0 });
    assert_eq!(d.len(), 2);
    assert_eq!(row_chars(&d, 0), chars("a"));
    assert_eq!(row_chars(&d, 1), chars("bcd"));
    d.insert_newline(&Pos { x: 0, y: 2 });
    assert_eq!(d.len(), 3);
    assert_eq!(row_chars(&d, 2), chars(""));
}

#[test]
fn highlight_bound_leaves_later_rows_untouched() {
    let mut d = Document::from_text("// a\n// b\n// c", None, comment_filetype());
    d.highlight(&None, Some(0));
    let (_, tags0) = d.row(0).unwrap().render(0, usize::MAX);
    let (_, tags2) = d.row(2).unwrap().render(0, usize::MAX);
    assert_eq!(tags0, vec![Type::Comment; 4]);
    // Row 2 lies past the bound: no tags were computed for it yet.
    assert_eq!(tags2, vec![Type::Plain; 4]);
}

#[test]
fn save_content_then_reload_reproduces_rows() {
    let mut d = doc("alpha\nbeta\ngamma");
    d.insert(&Pos { x: 5, y: 0 }, '!');
    let content: String = d.save_content().into_iter().collect();
    assert_eq!(content, "alpha!\nbeta\ngamma\n");
    let d2 = doc(&content);
    assert_eq!(d2.len(), d.len());
    for y in 0..d.len() {
        assert_eq!(row_chars(&d2, y), row_chars(&d, y));
    }
}

#[test]
fn mark_saved_clears_dirty_and_sets_filetype() {
    let mut d = doc("a");
    d.insert(&Pos { x: 1, y: 0 }, 'b');
    assert!(d.is_dirty());
    d.mark_saved(comment_filetype());
    assert!(!d.is_dirty());
    assert_eq!(d.file_type(), "Rust");
}

#[test]
fn document_find_forward_scans_rows() {
    let d = doc("abc\nxbz\nqqb");
    let p = d.find("b", &Pos { x: 2, y: 0 }, SearchDirection::Forward).unwrap();
    assert_eq!((p.x, p.y), (1, 1));
    let p = d.find("b", &Pos { x: 0, y: 0 }, SearchDirection::Forward).unwrap();
    assert_eq!((p.x, p.y), (1, 0));
    assert_eq!(d.find("zz", &Pos { x: 0, y: 0 }, SearchDirection::Forward), None);
}

#[test]
fn document_find_backward_scans_rows() {
    let d = doc("abc\nxbz\nqqb");
    let p = d.find("b", &Pos { x: 1, y: 2 }, SearchDirection::Backward).unwrap();
    assert_eq!((p.x, p.y), (1, 1));
    let p = d.find("b", &Pos { x: 3, y: 2 }, SearchDirection::Backward).unwrap();
    assert_eq!((p.x, p.y), (2, 2));
}

#[test]
fn document_find_empty_query_is_none() {
    let d = doc("abc");
    assert_eq!(d.find("", &Pos { x: 0, y: 0 }, SearchDirection::Forward), None);
}

#[test]
fn default_document_is_empty_and_untitled() {
    let d = Document::default();
    assert!(d.is_empty());
    assert_eq!(d.len(), 0);
    assert!(!d.is_dirty());
    assert_eq!(d.file_type(), "No filetype");
    assert!(d.filename.is_none());
}

#[test]
fn search_word_highlights_matches_across_document() {
    let mut d = Document::from_text("ab\ncabc", None, comment_filetype());
    d.highlight(&Some(String::from("ab")), None);
    let (_, tags0) = d.row(0).unwrap().render(0, usize::MAX);
    let (_, tags1) = d.row(1).unwrap().render(0, usize::MAX);
    assert_eq!(tags0, vec![Type::Match, Type::Match]);
    assert_eq!(tags1, vec![Type::Plain, Type::Match, Type::Match, Type::Plain]);
}

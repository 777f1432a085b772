use ranger::editor::{editor_text, parse_edited};

#[test]
fn edited_text_sets_title_and_description() {
    let (title, description) =
        parse_edited("\n  Edited title  \n\nFirst paragraph\n\nSecond paragraph\n\n\n").unwrap();
    assert_eq!(title, "Edited title");
    assert_eq!(description, "First paragraph\n\nSecond paragraph");
}

#[test]
fn edited_text_with_an_empty_body_clears_the_description() {
    let (title, description) = parse_edited("Just a title\n").unwrap();
    assert_eq!(title, "Just a title");
    assert_eq!(description, "");
}

#[test]
fn blank_edited_text_changes_nothing() {
    assert!(parse_edited("\n   \n\n").is_none());
    assert!(parse_edited("").is_none());
}

#[test]
fn editor_text_reads_back_as_written() {
    let text = editor_text("Original title", "Original description");
    assert_eq!(text, "Original title\n\nOriginal description\n");
    let (title, description) = parse_edited(&text).unwrap();
    assert_eq!(title, "Original title");
    assert_eq!(description, "Original description");
    let (title, description) = parse_edited(&editor_text("Bare", "")).unwrap();
    assert_eq!(title, "Bare");
    assert_eq!(description, "");
}

#[test]
fn lines_of_only_whitespace_count_as_blank() {
    assert!(parse_edited("\t \u{a0}\n\u{2003}\n").is_none());
    let (title, description) = parse_edited("\u{3000}Title\u{3000}\n \nBody\n\t\n").unwrap();
    assert_eq!(title, "Title");
    assert_eq!(description, "Body");
}

use toybox::mailer::{has_extension, same_text};

#[test]
fn txt_files_are_sent() {
    assert!(has_extension("./notes.txt", "txt"));
    assert!(has_extension("book.tar.txt", "txt"));
    assert!(!has_extension("./notes.md", "txt"));
    assert!(!has_extension("./notes", "txt"));
    assert!(!has_extension("./.txt", "txt"));
    assert!(!has_extension("./notes.TXT", "txt"));
}

#[test]
fn epub_files() {
    assert!(has_extension("./novel.epub", "epub"));
    assert!(!has_extension("./novel.epub", "txt"));
}

#[test]
fn text_comparison() {
    assert!(same_text("abc", "abc"));
    assert!(!same_text("abc", "abd"));
    assert!(!same_text("abc", "ab"));
    assert!(same_text("", ""));
}

use toybox::text::{count_lines, parse_trimmed_i8};

#[test]
fn typed_numbers() {
    assert_eq!(parse_trimmed_i8("5\n"), Some(5));
    assert_eq!(parse_trimmed_i8("  7 \r\n"), Some(7));
    assert_eq!(parse_trimmed_i8("-3\n"), Some(-3));
    assert_eq!(parse_trimmed_i8("+9"), Some(9));
    assert_eq!(parse_trimmed_i8("127"), Some(127));
    assert_eq!(parse_trimmed_i8("-128"), Some(-128));
    assert_eq!(parse_trimmed_i8("128"), None);
    assert_eq!(parse_trimmed_i8("1 2"), None);
    assert_eq!(parse_trimmed_i8("x"), None);
    assert_eq!(parse_trimmed_i8("\n"), None);
    assert_eq!(parse_trimmed_i8("\u{a0}4\u{3000}"), Some(4));
}

#[test]
fn line_counts_as_str_lines() {
    for text in ["", "a", "a\n", "a\nb", "a\nb\n", "\n", "\n\n", "a\r\nb\r\n", "x\ny\nz"] {
        assert_eq!(count_lines(text), text.lines().count(), "{:?}", text);
    }
}

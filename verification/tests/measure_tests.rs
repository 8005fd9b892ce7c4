use libtext::measure;

#[test]
fn measure_empty() {
    assert_eq!(measure(""), 0);
}

#[test]
fn measure_ascii() {
    assert_eq!(measure("abc"), 3);
}

#[test]
fn measure_wide_characters() {
    assert_eq!(measure("\u{3042}"), 2);
    assert_eq!(measure("a\u{3042}b"), 4);
}

#[test]
fn measure_control_characters_are_zero_width() {
    // ESC itself has no width; the printable tail counts normally.
    assert_eq!(measure("\u{1b}[0m"), 3);
}

#[test]
fn measure_combining_mark_is_zero_width() {
    // U+0301 combining acute accent
    assert_eq!(measure("e\u{301}"), 1);
}
